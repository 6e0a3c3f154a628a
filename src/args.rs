//! The program's arguments: where to read the maze, where to write the
//! result, and which bomb to set off first.
use vstd::prelude::*;
use vstd::string::*;
use crate::errors::InputError;
use crate::point::Point;
use crate::text::{chars_of, decimal, parse_u32, parse_u32_range, push_decimal, split_on, split_ranges, lemma_split_on_len};

verus! {

/// `s` without the copies of `c` it starts with.
pub open spec fn strip_start(s: Seq<char>, c: char) -> Seq<char>
    decreases s.len(),
{
    if s.len() > 0 && s[0] == c {
        strip_start(s.drop_first(), c)
    } else {
        s
    }
}

/// `s` without the copies of `c` it ends with.
pub open spec fn strip_end(s: Seq<char>, c: char) -> Seq<char>
    decreases s.len(),
{
    if s.len() > 0 && s.last() == c {
        strip_end(s.drop_last(), c)
    } else {
        s
    }
}

/// The output directory `./<path>/`, with the slashes around `path` removed.
pub open spec fn out_dir(path: Seq<char>) -> Seq<char> {
    "./"@ + strip_start(strip_end(path, '/'), '/') + "/"@
}

/// What follows the last `/` of a path, or the whole path.
pub open spec fn file_name(path: Seq<char>) -> Seq<char> {
    split_on(path, '/').last()
}

/// The message for a wrong number of arguments.
pub open spec fn arg_count_text(n: nat) -> Seq<char> {
    "incorrect number of arguments provided, need 4 got "@ + decimal(n)
}

/// The message for a start cell that is not two numbers.
pub open spec fn bad_start_text() -> Seq<char> {
    "invalid starting point, x and y should be positive numbers"@
}

/// Bounds of `s[lo..hi]` without the copies of `c` at either end.
fn strip_range(s: &Vec<char>, lo: usize, hi: usize, c: char) -> (r: (usize, usize))
    requires
        lo <= hi <= s@.len(),
    ensures
        lo <= r.0 <= r.1 <= hi,
        s@.subrange(r.0 as int, r.1 as int) == strip_start(
            strip_end(s@.subrange(lo as int, hi as int), c),
            c,
        ),
{
    let mut b = hi;
    while b > lo && s[b - 1] == c
        invariant
            lo <= b <= hi <= s@.len(),
            strip_end(s@.subrange(lo as int, hi as int), c) == strip_end(
                s@.subrange(lo as int, b as int),
                c,
            ),
        decreases b - lo,
    {
        assert(s@.subrange(lo as int, b - 1) =~= s@.subrange(lo as int, b as int).drop_last());
        b = b - 1;
    }
    let mut a = lo;
    while a < b && s[a] == c
        invariant
            lo <= a <= b <= hi <= s@.len(),
            strip_start(strip_end(s@.subrange(lo as int, hi as int), c), c) == strip_start(
                s@.subrange(a as int, b as int),
                c,
            ),
        decreases b - a,
    {
        assert(s@.subrange(a + 1, b as int) =~= s@.subrange(a as int, b as int).drop_first());
        a = a + 1;
    }
    (a, b)
}

/// The output directory for `path`: `./<path>/`, with the slashes around
/// `path` removed.
pub fn format_out_path(path: &str) -> (r: String)
    ensures
        r@ == out_dir(path@),
{
    let c = chars_of(path);
    let (a, b) = strip_range(&c, 0, c.len(), '/');
    assert(c@.subrange(0, c@.len() as int) =~= path@);
    let mut r = String::from_str("./");
    r.append(path.substring_char(a, b));
    r.append("/");
    r
}

/// Reads the arguments: the maze file, the output directory, and the column
/// and row of the first bomb. Returns the path to read, the path to write,
/// and the start cell.
pub fn validate_args(args: &[String]) -> (r: Result<(String, String, Point), InputError>)
    ensures
        match r {
            Ok((input, output, start)) => args@.len() == 4 && input@ == "./"@ + strip_start(
                args@[0]@,
                '/',
            ) && output@ == out_dir(args@[1]@) + file_name(args@[0]@) && parse_u32(args@[2]@)
                == Some(start.x) && parse_u32(args@[3]@) == Some(start.y),
            Err(InputError::InvalidInput(m)) => if args@.len() != 4 {
                m@ == arg_count_text(args@.len() as nat)
            } else {
                (parse_u32(args@[2]@) is None || parse_u32(args@[3]@) is None) && m@
                    == bad_start_text()
            },
            Err(InputError::FileError(_)) => false,
        },
{
    if args.len() != 4 {
        let mut m = String::from_str("incorrect number of arguments provided, need 4 got ");
        push_decimal(&mut m, args.len() as u64);
        return Err(InputError::InvalidInput(m));
    }
    let dir = format_out_path(args[1].as_str());
    let file = args[0].as_str();
    let c = chars_of(file);
    assert(c@.subrange(0, c@.len() as int) =~= file@);
    let mut input_path = String::from_str("./");
    let mut start: usize = 0;
    while start < c.len() && c[start] == '/'
        invariant
            start <= c@.len(),
            c@ == file@,
            strip_start(file@, '/') == strip_start(c@.subrange(start as int, c@.len() as int), '/'),
        decreases c@.len() - start,
    {
        assert(c@.subrange(start + 1, c@.len() as int) =~= c@.subrange(
            start as int,
            c@.len() as int,
        ).drop_first());
        start = start + 1;
    }
    input_path.append(file.substring_char(start, c.len()));
    let pieces = split_ranges(&c, 0, c.len(), '/');
    proof {
        lemma_split_on_len(c@.subrange(0, c@.len() as int), '/');
    }
    let (ps, pe) = pieces[pieces.len() - 1];
    let mut output_path = dir;
    output_path.append(file.substring_char(ps, pe));
    let c2 = chars_of(args[2].as_str());
    let c3 = chars_of(args[3].as_str());
    assert(c2@.subrange(0, c2@.len() as int) =~= args@[2]@);
    assert(c3@.subrange(0, c3@.len() as int) =~= args@[3]@);
    match (parse_u32_range(&c2, 0, c2.len()), parse_u32_range(&c3, 0, c3.len())) {
        (Some(x), Some(y)) => Ok((input_path, output_path, Point::new(x, y))),
        _ => Err(
            InputError::InvalidInput(
                String::from_str("invalid starting point, x and y should be positive numbers"),
            ),
        ),
    }
}

} // verus!
