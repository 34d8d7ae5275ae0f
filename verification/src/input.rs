//! From raw delimited input to a forest: split the bytes into records, decode
//! each record as best-effort text, and build the trees.

use vstd::prelude::*;
use crate::split::{
    byte_views, join_seq, lemma_split_join, lemma_split_seq_len, records_of, split_seq,
    string_views,
};
use crate::render::render_forest;
use crate::tree::{build_forest, forest_model, forest_wf, make_trees, FileTree, TreeModel};

verus! {

/// What `String::from_utf8_lossy` returns for the given bytes, a function of
/// the bytes alone.
pub uninterp spec fn lossy_of(bytes: Seq<u8>) -> Seq<char>;

/// Relies on `String::from_utf8_lossy`: best-effort decoding whose result is
/// determined by the bytes alone.
#[verifier::external_body]
fn decode_lossy(bytes: &Vec<u8>) -> (r: String)
    ensures
        r@ == lossy_of(bytes@),
{
    String::from_utf8_lossy(bytes.as_slice()).into_owned()
}

/// Splits `bytes` on `delim`, keeping empty pieces.
pub fn split_on_byte(bytes: &[u8], delim: u8) -> (parts: Vec<Vec<u8>>)
    ensures
        byte_views(parts@) == split_seq(bytes@, delim),
    decreases bytes@.len(),
{
    let n = bytes.len();
    if n == 0 {
        let mut parts: Vec<Vec<u8>> = Vec::new();
        parts.push(Vec::new());
        proof {
            assert(byte_views(parts@) =~= split_seq(bytes@, delim));
        }
        parts
    } else {
        let b = *vstd::slice::slice_index_get(bytes, 0);
        let rest = vstd::slice::slice_subrange(bytes, 1, n);
        proof {
            assert(rest@ =~= bytes@.skip(1));
        }
        let mut parts = split_on_byte(rest, delim);
        proof {
            lemma_split_seq_len(rest@, delim);
        }
        if b == delim {
            parts.insert(0, Vec::new());
            proof {
                assert(byte_views(parts@) =~= split_seq(bytes@, delim));
            }
            parts
        } else {
            let mut first = parts.remove(0);
            let mut p0: Vec<u8> = Vec::new();
            p0.push(b);
            p0.append(&mut first);
            parts.insert(0, p0);
            proof {
                assert(p0@ =~= seq![bytes@[0]] + split_seq(bytes@.skip(1), delim)[0]);
                assert(byte_views(parts@) =~= split_seq(bytes@, delim));
            }
            parts
        }
    }
}

/// Splits a raw input into its records.
pub fn split_records(input: &[u8], delim: u8) -> (recs: Vec<Vec<u8>>)
    ensures
        byte_views(recs@) == records_of(input@, delim),
{
    let mut parts = split_on_byte(input, delim);
    proof {
        lemma_split_seq_len(input@, delim);
    }
    let k = parts.len();
    if parts[k - 1].len() == 0 {
        parts.pop();
        proof {
            assert(byte_views(parts@) =~= records_of(input@, delim));
        }
    } else {
        proof {
            assert(byte_views(parts@) =~= records_of(input@, delim));
        }
    }
    parts
}

/// The records of a raw input, decoded.
pub open spec fn decoded_records(bytes: Seq<u8>, delim: u8) -> Seq<Seq<char>> {
    records_of(bytes, delim).map_values(|r: Seq<u8>| lossy_of(r))
}

/// The forest a raw input describes: split into records on the line break
/// (or, opting in, on the null byte), decode each record, build the trees.
pub open spec fn forest_from_input(bytes: Seq<u8>, null_separated: bool) -> Seq<TreeModel> {
    build_forest(
        decoded_records(
            bytes,
            if null_separated {
                0u8
            } else {
                10u8
            },
        ),
    )
}

/// Decodes every record.
fn decode_records(recs: &Vec<Vec<u8>>) -> (out: Vec<String>)
    ensures
        string_views(out@) == byte_views(recs@).map_values(|r: Seq<u8>| lossy_of(r)),
{
    let mut out: Vec<String> = Vec::new();
    let n = recs.len();
    let mut i: usize = 0;
    while i < n
        invariant
            n == recs@.len(),
            i <= n,
            out@.len() == i,
            forall|k: int| 0 <= k < i ==> out@[k]@ == lossy_of(recs@[k]@),
        decreases n - i,
    {
        let s = decode_lossy(&recs[i]);
        out.push(s);
        i += 1;
    }
    proof {
        assert(string_views(out@) =~= byte_views(recs@).map_values(|r: Seq<u8>| lossy_of(r)));
    }
    out
}

/// Splitting a delimited input recovers the records it encodes, as long as
/// no record holds the delimiter and the last record is not empty.
pub proof fn lemma_records_of_join(parts: Seq<Seq<u8>>, delim: u8)
    requires
        forall|i: int| 0 <= i < parts.len() ==> !(#[trigger] parts[i]).contains(delim),
        parts.len() > 0 ==> parts.last().len() > 0,
    ensures
        records_of(join_seq(parts, delim), delim) == parts,
{
    if parts.len() == 0 {
        assert(join_seq(parts, delim) =~= Seq::<u8>::empty());
        assert(split_seq(Seq::<u8>::empty(), delim) == seq![Seq::<u8>::empty()]);
        assert(records_of(join_seq(parts, delim), delim) =~= parts);
    } else {
        lemma_split_join(parts, delim);
    }
}

/// The two delimiter modes agree: the same records, once encoded with line
/// breaks and once with null bytes, describe the same forest.
pub proof fn lemma_delimiter_modes_agree(parts: Seq<Seq<u8>>)
    requires
        forall|i: int| 0 <= i < parts.len() ==> !(#[trigger] parts[i]).contains(10u8),
        forall|i: int| 0 <= i < parts.len() ==> !(#[trigger] parts[i]).contains(0u8),
        parts.len() > 0 ==> parts.last().len() > 0,
    ensures
        forest_from_input(join_seq(parts, 10u8), false) == forest_from_input(
            join_seq(parts, 0u8),
            true,
        ),
{
    lemma_records_of_join(parts, 10u8);
    lemma_records_of_join(parts, 0u8);
}

/// An empty input yields an empty forest, and an empty forest renders as no
/// lines at all, in either delimiter mode.
pub proof fn lemma_empty_input(null_separated: bool)
    ensures
        forest_from_input(Seq::empty(), null_separated) == Seq::<TreeModel>::empty(),
        render_forest(Seq::<TreeModel>::empty()) == Seq::<Seq<char>>::empty(),
{
    let delim: u8 = if null_separated {
        0
    } else {
        10
    };
    assert(split_seq(Seq::<u8>::empty(), delim) == seq![Seq::<u8>::empty()]);
    assert(records_of(Seq::empty(), delim) =~= Seq::<Seq<u8>>::empty());
    assert(decoded_records(Seq::empty(), delim) =~= Seq::<Seq<char>>::empty());
    assert(build_forest(Seq::<Seq<char>>::empty()) =~= Seq::<TreeModel>::empty());
    assert(render_forest(Seq::<TreeModel>::empty()) =~= Seq::<Seq<char>>::empty());
}

/// Builds the forest for a whole raw input, in the chosen delimiter mode.
pub fn build_from_input(input: &Vec<u8>, null_separated: bool) -> (forest: Vec<FileTree>)
    ensures
        forest_model(forest) == forest_from_input(input@, null_separated),
        forest_wf(forest_model(forest)),
{
    let delim: u8 = if null_separated {
        0
    } else {
        10
    };
    let recs = split_records(input.as_slice(), delim);
    let strs = decode_records(&recs);
    make_trees(&strs)
}

} // verus!
