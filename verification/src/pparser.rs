//! Filesystem path parsing.
//!
//! A path names a drive and a sequence of components: a decimal drive
//! digit, then `:/`, then components separated by `/`, as in
//! `0:/bin/shell`.

use vstd::prelude::*;

use crate::config::MAX_PATH;
use crate::status::ErrorCode;

verus! {

/// The parts joined back together with `sep` between them.  Together with
/// no part containing `sep`, this pins the split of a string down
/// uniquely.
pub open spec fn join_with(parts: Seq<Seq<char>>, sep: char) -> Seq<char>
    decreases parts.len(),
{
    if parts.len() == 0 {
        Seq::empty()
    } else if parts.len() == 1 {
        parts[0]
    } else {
        parts[0] + seq![sep] + join_with(parts.drop_first(), sep)
    }
}

/// Appending one more part appends one separator and the part.
proof fn lemma_join_push(parts: Seq<Seq<char>>, sep: char, last: Seq<char>)
    requires
        parts.len() >= 1,
    ensures
        join_with(parts.push(last), sep) == join_with(parts, sep) + seq![sep] + last,
    decreases parts.len(),
{
    if parts.len() == 1 {
        assert(parts.push(last).drop_first() =~= seq![last]);
        assert(parts.push(last)[0] == parts[0]);
        assert(join_with(seq![last], sep) == last);
        assert(join_with(parts.push(last), sep) == parts[0] + seq![sep] + last);
        assert(join_with(parts, sep) == parts[0]);
    } else {
        assert(parts.push(last).drop_first() =~= parts.drop_first().push(last));
        lemma_join_push(parts.drop_first(), sep, last);
        assert((parts[0] + seq![sep] + (join_with(parts.drop_first(), sep) + seq![sep] + last))
            =~= (parts[0] + seq![sep] + join_with(parts.drop_first(), sep)) + seq![sep] + last);
    }
}

/// A parsed path: the drive number and the path components in order.
pub struct PathRoot<'a> {
    /// The decimal drive number named before `:/`.
    pub drive_no: u32,
    /// The components of the path after `d:/`, split on `/`.
    pub parts: Vec<&'a str>,
}

/// Reads the drive number of a well-formed path: a decimal digit followed
/// by `:/`.  Anything else is `BadPath`.
pub fn get_drive_by_path(path: &str) -> (r: Result<u32, ErrorCode>)
    ensures
        r is Ok <==> path@.len() >= 3 && 48 <= path@[0] as u32 <= 57 && path@[1] == ':'
            && path@[2] == '/',
        r is Err ==> r == Err::<u32, ErrorCode>(ErrorCode::BadPath),
        r is Ok ==> r->Ok_0 == path@[0] as u32 - 48,
{
    let n = path.unicode_len();
    if n < 3 {
        return Err(ErrorCode::BadPath);
    }
    let c0 = path.get_char(0);
    let d = c0 as u32;
    if d < 48 || d > 57 {
        return Err(ErrorCode::BadPath);
    }
    if path.get_char(1) != ':' || path.get_char(2) != '/' {
        return Err(ErrorCode::BadPath);
    }
    Ok(d - 48)
}

/// Parses a full path of the form `d:/one/two`: rejects paths longer than
/// `MAX_PATH` characters or without the `d:/` prefix (`BadPath`), and
/// otherwise returns the drive number and the components of the remainder
/// split on `/` — the parts contain no separator and joining them with
/// `/` restores the remainder exactly.
pub fn parse_path<'a>(path: &'a str) -> (r: Result<PathRoot<'a>, ErrorCode>)
    ensures
        r is Ok <==> {
            &&& path@.len() <= MAX_PATH
            &&& path@.len() >= 3
            &&& 48 <= path@[0] as u32 <= 57
            &&& path@[1] == ':'
            &&& path@[2] == '/'
        },
        r is Err ==> r == Err::<PathRoot<'a>, ErrorCode>(ErrorCode::BadPath),
        r is Ok ==> {
            &&& r->Ok_0.drive_no == path@[0] as u32 - 48
            &&& r->Ok_0.parts@.len() >= 1
            &&& join_with(r->Ok_0.parts@.map_values(|p: &'a str| p@), '/') == path@.skip(3)
            &&& forall|j: int|
                0 <= j < r->Ok_0.parts@.len() ==> !(#[trigger] r->Ok_0.parts@[j]@).contains('/')
        },
{
    let n = path.unicode_len();
    if n > MAX_PATH {
        return Err(ErrorCode::BadPath);
    }
    let drive_no = match get_drive_by_path(path) {
        Ok(d) => d,
        Err(e) => {
            return Err(e);
        },
    };
    let rem = path.substring_char(3, n);
    let rn = n - 3;
    proof {
        assert(rem@ =~= path@.skip(3));
        assert(rem@.len() == rn);
    }
    let mut parts: Vec<&str> = Vec::new();
    let mut start: usize = 0;
    let mut i: usize = 0;
    while i < rn
        invariant
            rem@ == path@.skip(3),
            rem@.len() == rn,
            rn == n - 3,
            n == path@.len(),
            start <= i <= rn,
            parts@.len() == 0 ==> start == 0,
            parts@.len() >= 1 ==> start >= 1 && join_with(
                parts@.map_values(|p: &'a str| p@),
                '/',
            ) + seq!['/'] =~= rem@.subrange(0, start as int),
            forall|j: int| 0 <= j < parts@.len() ==> !(#[trigger] parts@[j]@).contains('/'),
            forall|k: int| start <= k < i ==> rem@[k] != '/',
        decreases rn - i,
    {
        if rem.get_char(i) == '/' {
            let piece = rem.substring_char(start, i);
            proof {
                assert(piece@ =~= rem@.subrange(start as int, i as int));
                assert(!piece@.contains('/')) by {
                    if piece@.contains('/') {
                        let k = choose|k: int| 0 <= k < piece@.len() && piece@[k] == '/';
                        assert(rem@[start + k] == '/');
                        assert(false);
                    }
                }
                let old_views = parts@.map_values(|p: &'a str| p@);
                if parts@.len() >= 1 {
                    lemma_join_push(old_views, '/', piece@);
                }
            }
            let ghost old_parts = parts@;
            parts.push(piece);
            proof {
                assert(parts@.map_values(|p: &'a str| p@) =~= old_parts.map_values(
                    |p: &'a str| p@,
                ).push(piece@));
                assert(join_with(parts@.map_values(|p: &'a str| p@), '/') + seq!['/']
                    =~= rem@.subrange(0, i as int + 1));
            }
            start = i + 1;
        }
        i = i + 1;
    }
    let piece = rem.substring_char(start, rn);
    proof {
        assert(piece@ =~= rem@.subrange(start as int, rn as int));
        assert(!piece@.contains('/')) by {
            if piece@.contains('/') {
                let k = choose|k: int| 0 <= k < piece@.len() && piece@[k] == '/';
                assert(rem@[start + k] == '/');
                assert(false);
            }
        }
        let old_views = parts@.map_values(|p: &'a str| p@);
        if parts@.len() >= 1 {
            lemma_join_push(old_views, '/', piece@);
        }
    }
    let ghost old_parts = parts@;
    parts.push(piece);
    proof {
        assert(parts@.map_values(|p: &'a str| p@) =~= old_parts.map_values(
            |p: &'a str| p@,
        ).push(piece@));
        assert(join_with(parts@.map_values(|p: &'a str| p@), '/') =~= rem@);
    }
    Ok(PathRoot { drive_no, parts })
}

} // verus!
