//! The textual side of a request: lists of column names written with commas,
//! and the name of the output.

use vstd::prelude::*;
use vstd::string::*;
use crate::text::join;

verus! {

/// The comma that separates the names of a list.
pub open spec fn comma() -> char {
    ','
}

/// The parts of `s` between the occurrences of `sep`. A text without `sep` is
/// its own single part; two separators in a row enclose an empty part.
pub open spec fn split(s: Seq<char>, sep: char) -> Seq<Seq<char>>
    decreases s.len(),
{
    if s.len() == 0 {
        seq![Seq::empty()]
    } else {
        let head = split(s.drop_last(), sep);
        if s.last() == sep {
            head.push(Seq::empty())
        } else {
            head.drop_last().push(head.last().push(s.last()))
        }
    }
}

/// A split text has at least one part, and no part holds the separator.
pub proof fn lemma_split_parts(s: Seq<char>, sep: char)
    ensures
        split(s, sep).len() >= 1,
        forall|i: int|
            0 <= i < split(s, sep).len() ==> !(#[trigger] split(s, sep)[i]).contains(sep),
    decreases s.len(),
{
    if s.len() > 0 {
        let head = split(s.drop_last(), sep);
        lemma_split_parts(s.drop_last(), sep);
        if s.last() != sep {
            let grown = head.last().push(s.last());
            assert forall|i: int| 0 <= i < split(s, sep).len() implies !(#[trigger] split(
                s,
                sep,
            )[i]).contains(sep) by {
                if i < head.len() - 1 {
                    assert(split(s, sep)[i] == head[i]);
                } else {
                    if grown.contains(sep) {
                        let p = choose|p: int| 0 <= p < grown.len() && grown[p] == sep;
                        assert(head.last()[p] == sep);
                        assert(head[head.len() - 1].contains(sep));
                    }
                }
            }
        } else {
            assert forall|i: int| 0 <= i < split(s, sep).len() implies !(#[trigger] split(
                s,
                sep,
            )[i]).contains(sep) by {
                if i < head.len() {
                    assert(split(s, sep)[i] == head[i]);
                }
            }
        }
    }
}

/// Joining the parts of a split text with the separator gives the text back.
pub proof fn lemma_split_join(s: Seq<char>, sep: char)
    ensures
        join(split(s, sep), seq![sep]) == s,
    decreases s.len(),
{
    if s.len() == 0 {
        assert(join(split(s, sep), seq![sep]) =~= s);
    } else {
        let front = s.drop_last();
        let head = split(front, sep);
        lemma_split_join(front, sep);
        lemma_split_parts(front, sep);
        let whole = split(s, sep);
        if s.last() == sep {
            assert(whole.drop_last() =~= head);
            assert(join(whole, seq![sep]) =~= front + seq![sep] + Seq::<char>::empty());
            assert(join(whole, seq![sep]) =~= s);
        } else {
            let grown = head.last().push(s.last());
            if head.len() == 1 {
                assert(join(head, seq![sep]) == head[0]);
                assert(whole =~= seq![grown]);
                assert(join(whole, seq![sep]) == grown);
                assert(grown =~= s);
            } else {
                assert(whole.drop_last() =~= head.drop_last());
                assert(whole.last() == grown);
                assert(join(whole, seq![sep]) =~= (join(head.drop_last(), seq![sep]) + seq![sep]
                    + head.last()).push(s.last()));
                assert(join(whole, seq![sep]) =~= s);
            }
        }
    }
}

/// Splits a list of names written with commas between them. Nothing is
/// trimmed: a blank beside a comma belongs to the name.
pub fn split_list(arg: &str) -> (names: Vec<String>)
    ensures
        names.deep_view() == split(arg@, comma()),
        names.len() >= 1,
{
    let n = arg.unicode_len();
    let mut names: Vec<String> = Vec::new();
    let mut start: usize = 0;
    let mut i: usize = 0;
    proof {
        assert(arg@.take(0) =~= Seq::<char>::empty());
    }
    while i < n
        invariant
            start <= i <= n,
            n == arg@.len(),
            names.deep_view().push(arg@.subrange(start as int, i as int)) == split(
                arg@.take(i as int),
                comma(),
            ),
        decreases n - i,
    {
        proof {
            assert(arg@.take(i as int + 1).drop_last() =~= arg@.take(i as int));
        }
        if arg.get_char(i) == ',' {
            let part = arg.substring_char(start, i);
            names.push(part.to_owned());
            proof {
                assert(arg@.subrange(i as int + 1, i as int + 1) =~= Seq::<char>::empty());
            }
            start = i + 1;
        } else {
            proof {
                assert(arg@.subrange(start as int, i as int).push(arg@[i as int]) =~= arg@.subrange(
                    start as int,
                    i as int + 1,
                ));
            }
        }
        i += 1;
    }
    let part = arg.substring_char(start, n);
    names.push(part.to_owned());
    proof {
        assert(arg@.take(n as int) =~= arg@);
    }
    names
}

/// The ending that the name of an output must have.
pub open spec fn csv_ending() -> Seq<char> {
    seq!['.', 'c', 's', 'v']
}

/// Tells whether `name` ends in `.csv`, in these lower-case letters.
pub fn is_csv_name(name: &str) -> (b: bool)
    ensures
        b == csv_ending().is_suffix_of(name@),
{
    let n = name.unicode_len();
    if n < 4 {
        return false;
    }
    name.get_char(n - 4) == '.' && name.get_char(n - 3) == 'c' && name.get_char(n - 2) == 's'
        && name.get_char(n - 1) == 'v'
}

} // verus!
