//! Splitting delimited text: a record into path segments, and a raw input
//! into records.

use vstd::prelude::*;
use vstd::string::StrSliceExecFns;
use vstd::string::StringExecFns;
use crate::chars::push_char;

verus! {

/// The views of a sequence of strings.
pub open spec fn string_views(v: Seq<String>) -> Seq<Seq<char>> {
    v.map_values(|s: String| s@)
}

/// The views of a sequence of byte vectors.
pub open spec fn byte_views(v: Seq<Vec<u8>>) -> Seq<Seq<u8>> {
    v.map_values(|b: Vec<u8>| b@)
}

/// The pieces of `s` between occurrences of `sep`, in order; there is always
/// at least one piece, and pieces next to a separator (or at either end of
/// `s`) may be empty.
pub open spec fn split_seq<A>(s: Seq<A>, sep: A) -> Seq<Seq<A>>
    decreases s.len(),
{
    if s.len() == 0 {
        seq![Seq::<A>::empty()]
    } else if s[0] == sep {
        seq![Seq::<A>::empty()] + split_seq(s.skip(1), sep)
    } else {
        let rest = split_seq(s.skip(1), sep);
        seq![seq![s[0]] + rest[0]] + rest.skip(1)
    }
}

pub proof fn lemma_split_seq_len<A>(s: Seq<A>, sep: A)
    ensures
        split_seq(s, sep).len() >= 1,
    decreases s.len(),
{
    if s.len() != 0 {
        lemma_split_seq_len(s.skip(1), sep);
    }
}

/// The path segments of one record: an empty record has none; any other
/// record is split on the path separator, empty segments included.
pub open spec fn segments_of(r: Seq<char>) -> Seq<Seq<char>> {
    if r.len() == 0 {
        Seq::empty()
    } else {
        split_seq(r, '/')
    }
}

/// The records of a delimited input: the input split on the delimiter, except
/// that the empty piece left by a trailing delimiter (or by an empty input)
/// is dropped.
pub open spec fn records_of(bytes: Seq<u8>, delim: u8) -> Seq<Seq<u8>> {
    let parts = split_seq(bytes, delim);
    if parts.last().len() == 0 {
        parts.drop_last()
    } else {
        parts
    }
}

/// The pieces joined back together, one separator between neighbours.
pub open spec fn join_seq<A>(parts: Seq<Seq<A>>, sep: A) -> Seq<A>
    decreases parts.len(),
{
    if parts.len() == 0 {
        Seq::empty()
    } else if parts.len() == 1 {
        parts[0]
    } else {
        parts[0] + seq![sep] + join_seq(parts.skip(1), sep)
    }
}

proof fn lemma_split_sep_free<A>(s: Seq<A>, sep: A)
    requires
        !s.contains(sep),
    ensures
        split_seq(s, sep) == seq![s],
    decreases s.len(),
{
    if s.len() > 0 {
        assert(s[0] != sep);
        assert(!s.skip(1).contains(sep)) by {
            if s.skip(1).contains(sep) {
                let k = choose|k: int| 0 <= k < s.skip(1).len() && s.skip(1)[k] == sep;
                assert(s[k + 1] == sep);
            }
        }
        lemma_split_sep_free(s.skip(1), sep);
        let rest = split_seq(s.skip(1), sep);
        assert(split_seq(s, sep) == seq![seq![s[0]] + rest[0]] + rest.skip(1));
        assert(seq![s[0]] + rest[0] =~= s);
        assert(rest.skip(1) =~= Seq::<Seq<A>>::empty());
        assert(split_seq(s, sep) =~= seq![s]);
    } else {
        assert(s =~= Seq::<A>::empty());
        assert(split_seq(s, sep) =~= seq![s]);
    }
}

/// Splitting undoes joining: when no piece holds the separator, splitting the
/// joined sequence gives the pieces back.
pub proof fn lemma_split_join<A>(parts: Seq<Seq<A>>, sep: A)
    requires
        parts.len() >= 1,
        forall|i: int| 0 <= i < parts.len() ==> !(#[trigger] parts[i]).contains(sep),
    ensures
        split_seq(join_seq(parts, sep), sep) == parts,
    decreases parts.len(), parts[0].len(),
{
    if parts.len() == 1 {
        lemma_split_sep_free(parts[0], sep);
        assert(split_seq(join_seq(parts, sep), sep) =~= parts);
    } else {
        let j = join_seq(parts, sep);
        if parts[0].len() == 0 {
            assert(j =~= seq![sep] + join_seq(parts.skip(1), sep));
            assert(j[0] == sep);
            assert(j.skip(1) =~= join_seq(parts.skip(1), sep));
            lemma_split_join(parts.skip(1), sep);
            assert(parts[0] =~= Seq::<A>::empty());
            assert(split_seq(j, sep) == seq![Seq::<A>::empty()] + split_seq(j.skip(1), sep));
            assert(split_seq(j, sep) =~= parts);
        } else {
            assert(j =~= (parts[0] + seq![sep]) + join_seq(parts.skip(1), sep));
            assert(j[0] == parts[0][0]);
            assert(j[0] != sep) by {
                assert(parts[0].contains(parts[0][0]));
            }
            let parts2 = seq![parts[0].skip(1)] + parts.skip(1);
            assert(parts2[0] == parts[0].skip(1));
            assert(!parts2[0].contains(sep)) by {
                if parts2[0].contains(sep) {
                    let k = choose|k: int| 0 <= k < parts2[0].len() && parts2[0][k] == sep;
                    assert(parts[0][k + 1] == sep);
                    assert(parts[0].contains(sep));
                }
            }
            assert forall|i: int| 0 <= i < parts2.len() implies !(#[trigger] parts2[i]).contains(
                sep,
            ) by {
                if i > 0 {
                    assert(parts2[i] == parts[i]);
                }
            }
            lemma_split_join(parts2, sep);
            assert(join_seq(parts2, sep) =~= j.skip(1)) by {
                assert(parts2.skip(1) =~= parts.skip(1));
                assert(join_seq(parts2, sep) == parts2[0] + seq![sep] + join_seq(
                    parts2.skip(1),
                    sep,
                ));
            }
            let rest = split_seq(j.skip(1), sep);
            assert(rest == parts2);
            assert(split_seq(j, sep) == seq![seq![j[0]] + rest[0]] + rest.skip(1));
            assert(seq![j[0]] + rest[0] =~= parts[0]);
            assert(rest.skip(1) =~= parts.skip(1));
            assert(split_seq(j, sep) =~= parts);
        }
    }
}

/// Splits `s` on `sep`, keeping empty pieces.
pub fn split_on_char(s: &str, sep: char) -> (parts: Vec<String>)
    ensures
        string_views(parts@) == split_seq(s@, sep),
    decreases s@.len(),
{
    let n = s.unicode_len();
    if n == 0 {
        let mut parts: Vec<String> = Vec::new();
        parts.push(String::new());
        proof {
            assert(string_views(parts@) =~= split_seq(s@, sep));
        }
        parts
    } else {
        let c = s.get_char(0);
        let rest = s.substring_char(1, n);
        proof {
            assert(rest@ =~= s@.skip(1));
        }
        let mut parts = split_on_char(rest, sep);
        proof {
            lemma_split_seq_len(rest@, sep);
        }
        if c == sep {
            parts.insert(0, String::new());
            proof {
                assert(string_views(parts@) =~= split_seq(s@, sep));
            }
            parts
        } else {
            let first = parts.remove(0);
            let mut s0 = String::new();
            push_char(&mut s0, c);
            s0.append(first.as_str());
            parts.insert(0, s0);
            proof {
                assert(s0@ =~= seq![s@[0]] + split_seq(s@.skip(1), sep)[0]);
                assert(string_views(parts@) =~= split_seq(s@, sep));
            }
            parts
        }
    }
}

/// Splits one record into its path segments.
pub fn split_record(r: &str) -> (segs: Vec<String>)
    ensures
        string_views(segs@) == segments_of(r@),
{
    if r.unicode_len() == 0 {
        let segs: Vec<String> = Vec::new();
        proof {
            assert(string_views(segs@) =~= segments_of(r@));
        }
        segs
    } else {
        split_on_char(r, '/')
    }
}

} // verus!
