//! Names as they are typed: several at once, with commas, semicolons or
//! line breaks between them.

use vstd::prelude::*;
use vstd::std_specs::iter::IteratorSpec;
use vstd::string::StrSliceExecFns;

verus! {

broadcast use vstd::string::group_string_axioms;

/// The character is white space.
pub open spec fn is_space(c: char) -> bool {
    let n = c as int;
    ||| 0x09 <= n <= 0x0d
    ||| n == 0x20
    ||| n == 0x85
    ||| n == 0xa0
    ||| n == 0x1680
    ||| 0x2000 <= n <= 0x200a
    ||| n == 0x2028
    ||| n == 0x2029
    ||| n == 0x202f
    ||| n == 0x205f
    ||| n == 0x3000
}

/// The character parts one name from the next.
pub open spec fn is_separator(c: char) -> bool {
    c == ',' || c == ';' || c == '\n'
}

/// The text is white space before `lo` and from `hi` on, and begins and
/// ends with something else between them.
pub open spec fn trims_to(s: Seq<char>, lo: int, hi: int) -> bool {
    &&& 0 <= lo <= hi <= s.len()
    &&& forall|i: int| 0 <= i < lo ==> is_space(#[trigger] s[i])
    &&& forall|i: int| hi <= i < s.len() ==> is_space(#[trigger] s[i])
    &&& lo < hi ==> !is_space(s[lo]) && !is_space(s[hi - 1])
}

/// The text without the white space at its ends.
pub open spec fn trimmed(s: Seq<char>) -> Seq<char> {
    let (lo, hi) = choose|lo: int, hi: int| trims_to(s, lo, hi);
    s.subrange(lo, hi)
}

/// Wherever the white space at the ends is found to stop, what lies
/// between is the trimmed text.
pub proof fn lemma_trimmed(s: Seq<char>, lo: int, hi: int)
    requires
        trims_to(s, lo, hi),
    ensures
        trimmed(s) == s.subrange(lo, hi),
{
    let (a, b) = choose|a: int, b: int| trims_to(s, a, b);
    assert(trims_to(s, a, b));
    if lo < hi {
        if a == b {
            if lo < a {
                assert(is_space(s[lo]));
            } else {
                assert(is_space(s[lo]));
            }
        } else {
            if a < lo {
                assert(is_space(s[a]));
            }
            if lo < a {
                assert(is_space(s[lo]));
            }
            if b < hi {
                assert(is_space(s[hi - 1]));
            }
            if hi < b {
                assert(is_space(s[b - 1]));
            }
        }
    } else {
        if a < b {
            if a < lo {
                assert(is_space(s[a]));
            } else {
                assert(is_space(s[a]));
            }
        }
        assert(s.subrange(a, b) =~= s.subrange(lo, hi));
    }
}

/// No separator stands before `k`, and one stands at `k` unless the text
/// ends there.
pub open spec fn parts_at(s: Seq<char>, k: int) -> bool {
    &&& 0 <= k <= s.len()
    &&& forall|i: int| 0 <= i < k ==> !is_separator(#[trigger] s[i])
    &&& k < s.len() ==> is_separator(s[k])
}

/// The place of the first separator, or the length of a text without one.
pub open spec fn first_separator(s: Seq<char>) -> int {
    choose|k: int| parts_at(s, k)
}

/// The first separator stands at one place only.
pub proof fn lemma_first_separator(s: Seq<char>, k: int)
    requires
        parts_at(s, k),
    ensures
        first_separator(s) == k,
{
    let j = first_separator(s);
    if j < k {
        assert(!is_separator(s[j]));
    } else if k < j {
        assert(!is_separator(s[k]));
    }
}

/// The names that end with a separator, each without the white space at
/// its ends.
pub open spec fn finished_names(s: Seq<char>) -> Seq<Seq<char>>
    decreases s.len(),
{
    let k = first_separator(s);
    if 0 <= k < s.len() {
        seq![trimmed(s.take(k))] + finished_names(s.skip(k + 1))
    } else {
        Seq::empty()
    }
}

/// What follows the last separator.
pub open spec fn unfinished(s: Seq<char>) -> Seq<char>
    decreases s.len(),
{
    let k = first_separator(s);
    if 0 <= k < s.len() {
        unfinished(s.skip(k + 1))
    } else {
        s
    }
}

/// What a text gives: where it holds fewer than two separators, the names
/// that it finishes and the text that is still being typed; else all its
/// names, the last one too unless it is empty, and nothing more to type.
pub open spec fn split(s: Seq<char>) -> (Seq<Seq<char>>, Seq<char>) {
    let names = finished_names(s);
    let rest = unfinished(s);
    if names.len() >= 2 {
        (
            if trimmed(rest).len() > 0 {
                names.push(trimmed(rest))
            } else {
                names
            },
            Seq::empty(),
        )
    } else {
        (names, rest)
    }
}

/// Whether the character is white space.
pub fn is_space_char(c: char) -> (r: bool)
    ensures
        r == is_space(c),
{
    ('\u{9}' <= c && c <= '\u{d}') || c == ' ' || c == '\u{85}' || c == '\u{a0}' || c
        == '\u{1680}' || ('\u{2000}' <= c && c <= '\u{200a}') || c == '\u{2028}' || c == '\u{2029}'
        || c == '\u{202f}' || c == '\u{205f}' || c == '\u{3000}'
}

/// Whether the character parts one name from the next.
pub fn is_separator_char(c: char) -> (r: bool)
    ensures
        r == is_separator(c),
{
    c == ',' || c == ';' || c == '\n'
}

/// The names that the strings spell.
pub open spec fn spelled_names(names: Seq<String>) -> Seq<Seq<char>> {
    Seq::new(names.len(), |i: int| names[i]@)
}

/// The names in a text as it is typed, and what stays in the field.
pub fn split_names(input: &str) -> (r: (Vec<String>, String))
    ensures
        spelled_names(r.0@) == split(input@).0,
        r.1@ == split(input@).1,
{
    let ghost s = input@;
    let n: usize = input.unicode_len();
    let mut names: Vec<String> = Vec::new();
    // Where the name that is being read begins, and where it stops being
    // white space from the front and from the back.
    let mut start: usize = 0;
    let mut lo: usize = 0;
    let mut hi: usize = 0;
    let mut chars = input.chars();
    let mut i: usize = 0;
    proof {
        assert(s.skip(0) =~= s);
    }
    loop
        invariant
            s == input@,
            n == s.len(),
            0 <= start <= lo <= i <= n,
            lo <= hi <= i,
            chars.remaining() == s.skip(i as int),
            chars.decrease() is Some,
            forall|j: int| start <= j < i ==> !is_separator(#[trigger] s[j]),
            hi > lo ==> !is_space(s[lo as int]) && !is_space(s[hi - 1]),
            forall|j: int| start <= j < lo ==> is_space(#[trigger] s[j]),
            forall|j: int| hi <= j < i ==> is_space(#[trigger] s[j]),
            finished_names(s) == spelled_names(names@) + finished_names(s.skip(start as int)),
            unfinished(s) == unfinished(s.skip(start as int)),
        ensures
            i == n,
            0 <= start <= lo <= hi <= n,
            forall|j: int| start <= j < n ==> !is_separator(#[trigger] s[j]),
            hi > lo ==> !is_space(s[lo as int]) && !is_space(s[hi - 1]),
            forall|j: int| start <= j < lo ==> is_space(#[trigger] s[j]),
            forall|j: int| hi <= j < n ==> is_space(#[trigger] s[j]),
            finished_names(s) == spelled_names(names@) + finished_names(s.skip(start as int)),
            unfinished(s) == unfinished(s.skip(start as int)),
        decreases n - i,
    {
        match chars.next() {
            None => {
                break ;
            },
            Some(c) => {
                assert(c == s[i as int]);
                proof {
                    assert(s.skip(i as int).drop_first() =~= s.skip(i + 1));
                }
                if is_separator_char(c) {
                    let name = input.substring_char(if hi > lo {
                        lo
                    } else {
                        start
                    }, if hi > lo {
                        hi
                    } else {
                        start
                    }).to_owned();
                    proof {
                        let tail = s.skip(start as int);
                        let k = i - start;
                        assert(parts_at(tail, k));
                        lemma_first_separator(tail, k);
                        assert(tail.skip(k + 1) =~= s.skip(i + 1));
                        let piece = tail.take(k);
                        assert(piece =~= s.subrange(start as int, i as int));
                        if hi > lo {
                            assert(trims_to(piece, lo - start, hi - start));
                            lemma_trimmed(piece, lo - start, hi - start);
                            assert(piece.subrange(lo - start, hi - start) =~= s.subrange(
                                lo as int,
                                hi as int,
                            ));
                        } else {
                            assert(trims_to(piece, 0, 0));
                            lemma_trimmed(piece, 0, 0);
                            assert(piece.subrange(0, 0) =~= s.subrange(start as int, start as int));
                        }
                        assert(name@ == trimmed(piece));
                        assert(spelled_names(names@.push(name)) =~= spelled_names(names@) + seq![
                            trimmed(piece),
                        ]);
                    }
                    names.push(name);
                    start = i + 1;
                    lo = i + 1;
                    hi = i + 1;
                } else if !is_space_char(c) {
                    if hi == lo {
                        lo = i;
                    }
                    hi = i + 1;
                } else if hi == lo {
                    lo = i + 1;
                    hi = i + 1;
                }
                i = i + 1;
            },
        }
    }
    proof {
        let tail = s.skip(start as int);
        assert(parts_at(tail, tail.len() as int));
        lemma_first_separator(tail, tail.len() as int);
        assert(finished_names(s) =~= spelled_names(names@));
        assert(unfinished(s) == tail);
        if hi > lo {
            assert(trims_to(tail, lo - start, hi - start));
            lemma_trimmed(tail, lo - start, hi - start);
            assert(tail.subrange(lo - start, hi - start) =~= s.subrange(lo as int, hi as int));
        } else {
            assert(trims_to(tail, 0, 0));
            lemma_trimmed(tail, 0, 0);
        }
        assert(tail =~= s.subrange(start as int, n as int));
    }
    if names.len() >= 2 {
        if hi > lo {
            let last = input.substring_char(lo, hi).to_owned();
            proof {
                assert(spelled_names(names@.push(last)) =~= spelled_names(names@).push(last@));
            }
            names.push(last);
        }
        (names, String::new())
    } else {
        (names, input.substring_char(start, n).to_owned())
    }
}

} // verus!
