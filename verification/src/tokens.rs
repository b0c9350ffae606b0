//! Splitting a sentence into tokens at white space.

use vstd::prelude::*;
use vstd::std_specs::iter::IteratorSpec;
use crate::edit::push_char;

verus! {

/// Whether `c` has the Unicode `White_Space` property: the code points
/// U+0009 to U+000D, U+0020, U+0085, U+00A0, U+1680, U+2000 to U+200A,
/// U+2028, U+2029, U+202F, U+205F and U+3000.
pub open spec fn white_space(c: char) -> bool {
    let u = c as u32;
    ||| 0x9 <= u <= 0xd
    ||| u == 0x20
    ||| u == 0x85
    ||| u == 0xa0
    ||| u == 0x1680
    ||| 0x2000 <= u <= 0x200a
    ||| u == 0x2028
    ||| u == 0x2029
    ||| u == 0x202f
    ||| u == 0x205f
    ||| u == 0x3000
}

/// Whether `c` is white space, as `char::is_whitespace` and
/// `str::split_whitespace` understand it.
pub fn is_white_space(c: char) -> (res: bool)
    ensures
        res == white_space(c),
{
    let u = c as u32;
    (0x9 <= u && u <= 0xd) || u == 0x20 || u == 0x85 || u == 0xa0 || u == 0x1680
        || (0x2000 <= u && u <= 0x200a) || u == 0x2028 || u == 0x2029 || u == 0x202f
        || u == 0x205f || u == 0x3000
}

/// The tokens finished and the token being read after the first `n`
/// characters of `s`.
pub open spec fn split_state(s: Seq<char>, n: nat) -> (Seq<Seq<char>>, Seq<char>)
    decreases n,
{
    if n == 0 {
        (Seq::empty(), Seq::empty())
    } else {
        let (done, cur) = split_state(s, (n - 1) as nat);
        let c = s[n - 1];
        if white_space(c) {
            if cur.len() > 0 {
                (done.push(cur), Seq::empty())
            } else {
                (done, cur)
            }
        } else {
            (done, cur.push(c))
        }
    }
}

/// The maximal runs of characters of `s` without white space, in order.
pub open spec fn whitespace_tokens(s: Seq<char>) -> Seq<Seq<char>> {
    let (done, cur) = split_state(s, s.len());
    if cur.len() > 0 {
        done.push(cur)
    } else {
        done
    }
}

/// Splits `s` into its maximal runs of characters without white space.
pub fn tokenize(s: &str) -> (res: Vec<String>)
    ensures
        res.deep_view() == whitespace_tokens(s@),
{
    broadcast use vstd::string::group_string_axioms;

    let mut chars = s.chars();
    let mut done: Vec<String> = Vec::new();
    let mut cur = String::new();
    let mut cur_has = false;
    let ghost mut n: nat = 0;
    loop
        invariant
            n <= s@.len(),
            chars.obeys_prophetic_iter_laws(),
            chars.remaining() == s@.skip(n as int),
            done.deep_view() == split_state(s@, n).0,
            cur@ == split_state(s@, n).1,
            cur_has == (cur@.len() > 0),
        ensures
            n == s@.len(),
            done.deep_view() == split_state(s@, n).0,
            cur@ == split_state(s@, n).1,
            cur_has == (cur@.len() > 0),
        decreases s@.len() - n,
    {
        let ghost before = chars.remaining();
        match chars.next() {
            None => {
                break;
            },
            Some(c) => {
                assert(c == s@[n as int]);
                if is_white_space(c) {
                    if cur_has {
                        let ghost old_done = done.deep_view();
                        done.push(cur);
                        assert(done.deep_view() =~= old_done.push(split_state(s@, n).1));
                        cur = String::new();
                        cur_has = false;
                    }
                } else {
                    push_char(&mut cur, c);
                    cur_has = true;
                }
                proof {
                    assert(s@.skip(n as int).drop_first() =~= s@.skip((n + 1) as int));
                    n = n + 1;
                }
            },
        }
    }
    if cur_has {
        let ghost old_done = done.deep_view();
        done.push(cur);
        assert(done.deep_view() =~= old_done.push(split_state(s@, s@.len()).1));
    }
    done
}

} // verus!
