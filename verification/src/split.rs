//! Splitting raw text into pieces on a separator character.
//!
//! `split_on` is the mathematical model: the pieces of a character sequence
//! between occurrences of a separator. The executable functions produce
//! exactly those pieces.

use vstd::prelude::*;
use vstd::std_specs::iter::IteratorSpec;

verus! {

broadcast use vstd::string::axiom_spec_iter, vstd::string::next_postcondition;

/// The pieces of `s` between occurrences of `sep`, in order. The empty
/// sequence has one empty piece; every occurrence of `sep` ends a piece,
/// so a trailing separator yields a trailing empty piece.
pub open spec fn split_on(s: Seq<char>, sep: char) -> Seq<Seq<char>>
    decreases s.len(),
{
    if s.len() == 0 {
        seq![Seq::<char>::empty()]
    } else if s.last() == sep {
        split_on(s.drop_last(), sep).push(Seq::<char>::empty())
    } else {
        let r = split_on(s.drop_last(), sep);
        r.update(r.len() - 1, r.last().push(s.last()))
    }
}

/// Splitting always yields at least one piece.
pub proof fn lemma_split_on_len(s: Seq<char>, sep: char)
    ensures
        split_on(s, sep).len() >= 1,
    decreases s.len(),
{
    if s.len() > 0 {
        lemma_split_on_len(s.drop_last(), sep);
    }
}

/// The characters of `s`, collected front to back.
pub fn chars_vec(s: &str) -> (v: Vec<char>)
    ensures
        v@ == s@,
{
    let mut it = s.chars();
    let mut v: Vec<char> = Vec::new();
    proof {
        assert(v@ + it.remaining() =~= s@);
    }
    loop
        invariant
            it.obeys_prophetic_iter_laws(),
            it.decrease() is Some,
            v@ + it.remaining() == s@,
        ensures
            v@ == s@,
        decreases it.decrease()->0,
    {
        let ghost prev_v = v@;
        let ghost prev_rem = it.remaining();
        match it.next() {
            Some(c) => {
                v.push(c);
                proof {
                    assert(prev_rem.len() > 0);
                    assert(v@ + it.remaining() =~= s@);
                }
            },
            None => {
                proof {
                    assert(prev_rem.len() == 0);
                    assert(v@ =~= s@);
                }
                break;
            },
        }
    }
    v
}

/// Splits `v` on `sep`, per `split_on`.
pub fn split_char(v: &[char], sep: char) -> (r: Vec<Vec<char>>)
    ensures
        r.deep_view() == split_on(v@, sep),
{
    let mut done: Vec<Vec<char>> = Vec::new();
    let mut cur: Vec<char> = Vec::new();
    let mut i: usize = 0;
    proof {
        assert(done.deep_view().push(cur@) =~~= split_on(v@.take(0), sep));
    }
    while i < v.len()
        invariant
            i <= v@.len(),
            done.deep_view().push(cur@) == split_on(v@.take(i as int), sep),
        decreases v@.len() - i,
    {
        let ghost prev = v@.take(i as int);
        let ghost prev_done = done.deep_view();
        let ghost prev_cur = cur@;
        let c = v[i];
        proof {
            assert(v@.take(i + 1) =~= prev.push(v@[i as int]));
            assert(v@.take(i + 1).drop_last() =~= prev);
        }
        if c == sep {
            done.push(cur);
            cur = Vec::new();
            proof {
                assert(done.deep_view() =~~= prev_done.push(prev_cur));
                assert(done.deep_view().push(cur@) =~~= split_on(v@.take(i + 1), sep));
            }
        } else {
            cur.push(c);
            proof {
                let r = split_on(prev, sep);
                assert(r.last() == prev_cur);
                assert(done.deep_view().push(cur@) =~~= r.update(r.len() - 1, r.last().push(c)));
            }
        }
        i += 1;
    }
    proof {
        assert(v@.take(i as int) =~= v@);
    }
    done.push(cur);
    proof {
        assert(done.deep_view() =~~= split_on(v@, sep));
    }
    done
}

/// Relies on `String`'s `FromIterator` of characters: collecting yields the
/// string of exactly those characters in order.
#[verifier::external_body]
pub(crate) fn string_from_chars(v: &[char]) -> (s: String)
    ensures
        s@ == v@,
{
    v.iter().collect()
}

/// Splits `v` on `sep` and hands each piece back as an owned string.
pub fn split_to_strings(v: &[char], sep: char) -> (r: Vec<String>)
    ensures
        r.deep_view() == split_on(v@, sep),
{
    let parts = split_char(v, sep);
    let mut r: Vec<String> = Vec::new();
    let mut i: usize = 0;
    while i < parts.len()
        invariant
            i <= parts@.len(),
            parts.deep_view() == split_on(v@, sep),
            r.deep_view() == parts.deep_view().take(i as int),
        decreases parts@.len() - i,
    {
        let ghost prev = r.deep_view();
        let piece = string_from_chars(parts[i].as_slice());
        r.push(piece);
        proof {
            assert(parts.deep_view()[i as int] =~= parts@[i as int]@);
            assert(r.deep_view() =~~= prev.push(parts.deep_view()[i as int]));
            assert(r.deep_view() =~~= parts.deep_view().take(i + 1));
        }
        i += 1;
    }
    proof {
        assert(r.deep_view() =~~= parts.deep_view());
    }
    r
}

/// Splits a string on the comma character, the rule shared by the header
/// line and by a caller-supplied column list.
pub fn split_comma(s: &str) -> (r: Vec<String>)
    ensures
        r.deep_view() == split_on(s@, ','),
{
    let cs = chars_vec(s);
    split_to_strings(cs.as_slice(), ',')
}

} // verus!
