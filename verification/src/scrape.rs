//! The listing of a directory: canonical paths in, normalized and sorted
//! paths out.

use crate::order::{lemma_path_order_total, path_leq, path_order, text_leq};
use crate::outside::{json_array, json_array_text};
use crate::tree::texts_of;
use vstd::prelude::*;
use vstd::relations::sorted_by;
use vstd::seq_lib::lemma_sorted_unique;
use vstd::string::StringSliceAdditionalSpecFns;
use vstd::utf8::{decode_utf8, encode_utf8, encode_utf8_decode_utf8, is_char_boundary};

verus! {

/// How many bytes a canonical path spends on the marker in front of the
/// drive: the listing leaves them out.
pub const MARKER_LEN: usize = 4;

/// `text` with every backslash turned into a slash.
pub open spec fn forward_slashes(text: Seq<char>) -> Seq<char> {
    text.map_values(
        |c: char|
            if c == '\\' {
                '/'
            } else {
                c
            },
    )
}

/// A canonical path can be listed when its first four bytes are whole
/// characters.
pub open spec fn listable(raw: Seq<char>) -> bool {
    is_char_boundary(encode_utf8(raw), MARKER_LEN as int)
}

/// How a canonical path is listed: without its first four bytes, and with
/// slashes only.
pub open spec fn listed(raw: Seq<char>) -> Seq<char> {
    forward_slashes(decode_utf8(encode_utf8(raw).skip(MARKER_LEN as int)))
}

/// The listing of a directory whose entries have these canonical paths: each
/// as it is listed, in the order of paths.
pub open spec fn listing(entries: Seq<Seq<char>>) -> Seq<Seq<char>> {
    entries.map_values(|raw: Seq<char>| listed(raw)).sort_by(path_order())
}

/// `at` is the first entry that cannot be listed.
pub open spec fn is_first_unlistable(entries: Seq<Seq<char>>, at: int) -> bool {
    &&& 0 <= at < entries.len()
    &&& !listable(entries[at])
    &&& forall|j: int| 0 <= j < at ==> listable(#[trigger] entries[j])
}

/// Why a directory could not be listed.
#[derive(Debug)]
pub enum ScrapeError {
    /// This entry's path does not start with four bytes that can be left out.
    Unlistable { path: String },
    /// The listing could not be written as JSON.
    Encoding,
}

/// The path under which `raw` is listed, if it can be listed.
pub fn normalize_path(raw: &str) -> (path: Option<String>)
    ensures
        match path {
            Some(text) => listable(raw@) && text@ == listed(raw@),
            None => !listable(raw@),
        },
{
    if !raw.is_char_boundary(MARKER_LEN) {
        return None;
    }
    let (_, tail) = raw.split_at(MARKER_LEN);
    proof {
        encode_utf8_decode_utf8(tail@);
        assert(tail.spec_bytes() =~= encode_utf8(raw@).skip(MARKER_LEN as int));
    }
    let mut text = String::new();
    for c in it: tail.chars()
        invariant
            it.seq() == tail@,
            text@ == forward_slashes(tail@.take(it.index() as int)),
    {
        let ghost before = tail@.take(it.index() as int);
        proof {
            assert(tail@.take(it.index() + 1) =~= before.push(c));
            assert(forward_slashes(before.push(c)) =~= forward_slashes(before).push(
                if c == '\\' {
                    '/'
                } else {
                    c
                },
            ));
        }
        if c == '\\' {
            text.push('/');
        } else {
            text.push(c);
        }
    }
    proof {
        assert(tail@.take(tail@.len() as int) =~= tail@);
    }
    Some(text)
}

/// Puts `item` into a sorted list, behind every path that does not come
/// after it.
fn insert_sorted(sorted: &mut Vec<String>, item: String)
    requires
        sorted_by(texts_of(old(sorted)@), path_order()),
    ensures
        sorted_by(texts_of(final(sorted)@), path_order()),
        texts_of(final(sorted)@).to_multiset() == texts_of(old(sorted)@).to_multiset().insert(
            item@,
        ),
{
    let ghost before = sorted@;
    let mut at: usize = sorted.len();
    while at > 0
        invariant
            sorted@ == before,
            at <= sorted.len(),
            forall|j: int| at <= j < sorted.len() ==> !path_leq(#[trigger] sorted@[j]@, item@),
        ensures
            at == 0 || path_leq(sorted@[at - 1]@, item@),
        decreases at,
    {
        if text_leq(sorted[at - 1].as_str(), item.as_str()) {
            break ;
        }
        at -= 1;
    }
    sorted.insert(at, item);
    proof {
        lemma_path_order_total();
        let leq = path_order();
        let old_texts = texts_of(before);
        let new_texts = texts_of(sorted@);
        assert(new_texts =~= old_texts.insert(at as int, item@));
        vstd::seq_lib::to_multiset_insert(old_texts, at as int, item@);
        assert forall|i: int, j: int| 0 <= i < j < new_texts.len() implies #[trigger] leq(
            new_texts[i],
            new_texts[j],
        ) by {
            if j < at {
                assert(leq(old_texts[i], old_texts[j]));
            } else if j == at {
                if at > 0 {
                    assert(leq(old_texts[at - 1], item@));
                    if i < at - 1 {
                        assert(leq(old_texts[i], old_texts[at - 1]));
                    }
                }
            } else if i < at {
                assert(leq(old_texts[i], old_texts[j - 1]));
            } else if i == at {
                assert(!path_leq(before[j - 1]@, item@));
                assert(leq(old_texts[j - 1], item@) || leq(item@, old_texts[j - 1]));
            } else {
                assert(leq(old_texts[i - 1], old_texts[j - 1]));
            }
        }
    }
}

/// The paths in the order of paths.
pub fn sort_paths(paths: Vec<String>) -> (sorted: Vec<String>)
    ensures
        texts_of(sorted@) == texts_of(paths@).sort_by(path_order()),
{
    let ghost given = texts_of(paths@);
    let mut sorted: Vec<String> = Vec::new();
    proof {
        assert(texts_of(sorted@) =~= Seq::<Seq<char>>::empty());
        assert(given.take(0) =~= Seq::<Seq<char>>::empty());
    }
    for path in it: paths
        invariant
            it.seq() == paths@,
            given == texts_of(paths@),
            sorted_by(texts_of(sorted@), path_order()),
            texts_of(sorted@).to_multiset() == given.take(it.index() as int).to_multiset(),
    {
        proof {
            let k = it.index() as int;
            assert(given.take(k + 1) =~= given.take(k).push(path@));
            vstd::seq_lib::to_multiset_build(given.take(k), path@);
        }
        insert_sorted(&mut sorted, path);
    }
    proof {
        assert(given.take(given.len() as int) =~= given);
        lemma_path_order_total();
        given.lemma_sort_by_ensures(path_order());
        lemma_sorted_unique(texts_of(sorted@), given.sort_by(path_order()), path_order());
    }
    sorted
}

/// The listing of a directory whose entries have the canonical paths
/// `entries`, in whatever order they were met. One entry that cannot be
/// listed fails the whole listing: the error holds the first such path.
pub fn file_path_listing(entries: &Vec<String>) -> (done: Result<Vec<String>, ScrapeError>)
    ensures
        match done {
            Ok(paths) => {
                &&& forall|i: int| 0 <= i < entries.len() ==> listable(#[trigger] entries@[i]@)
                &&& texts_of(paths@) == listing(texts_of(entries@))
            },
            Err(ScrapeError::Unlistable { path }) => exists|at: int|
                is_first_unlistable(texts_of(entries@), at) && path@ == #[trigger] entries@[at]@,
            Err(ScrapeError::Encoding) => false,
        },
{
    let ghost raw = texts_of(entries@);
    let ghost each = |r: Seq<char>| listed(r);
    let mut paths: Vec<String> = Vec::new();
    let mut i: usize = 0;
    proof {
        assert(texts_of(paths@) =~= raw.take(0).map_values(each));
    }
    while i < entries.len()
        invariant
            i <= entries.len(),
            raw == texts_of(entries@),
            each == |r: Seq<char>| listed(r),
            forall|j: int| 0 <= j < i ==> listable(#[trigger] entries@[j]@),
            texts_of(paths@) == raw.take(i as int).map_values(each),
        decreases entries.len() - i,
    {
        match normalize_path(entries[i].as_str()) {
            Some(path) => {
                let ghost before = paths@;
                paths.push(path);
                proof {
                    assert(texts_of(before.push(path)) =~= texts_of(before).push(path@));
                    assert(raw.take(i + 1) =~= raw.take(i as int).push(raw[i as int]));
                    assert(raw.take(i as int).push(raw[i as int]).map_values(each) =~= raw.take(
                        i as int,
                    ).map_values(each).push(listed(raw[i as int])));
                }
            },
            None => {
                proof {
                    assert(is_first_unlistable(raw, i as int));
                }
                return Err(ScrapeError::Unlistable { path: entries[i].clone() });
            },
        }
        i += 1;
    }
    proof {
        assert(raw.take(raw.len() as int) =~= raw);
    }
    Ok(sort_paths(paths))
}

/// What is sent for a listing: the JSON text where there is one.
pub fn listing_reply(written: Result<String, serde_json::Error>) -> (reply: Result<
    String,
    ScrapeError,
>)
    ensures
        match written {
            Ok(text) => reply == Ok::<String, ScrapeError>(text),
            Err(_) => reply == Err::<String, ScrapeError>(ScrapeError::Encoding),
        },
{
    match written {
        Ok(text) => Ok(text),
        Err(_) => Err(ScrapeError::Encoding),
    }
}

/// The listing of a directory as a JSON array of strings, from the canonical
/// paths of its entries.
pub fn get_file_paths(entries: &Vec<String>) -> (reply: Result<String, ScrapeError>)
    ensures
        match reply {
            Ok(text) => {
                &&& forall|i: int| 0 <= i < entries.len() ==> listable(#[trigger] entries@[i]@)
                &&& json_array_text(listing(texts_of(entries@))) == Some(text@)
            },
            Err(ScrapeError::Unlistable { path }) => exists|at: int|
                is_first_unlistable(texts_of(entries@), at) && path@ == #[trigger] entries@[at]@,
            Err(ScrapeError::Encoding) => {
                &&& forall|i: int| 0 <= i < entries.len() ==> listable(#[trigger] entries@[i]@)
                &&& json_array_text(listing(texts_of(entries@))) is None
            },
        },
{
    match file_path_listing(entries) {
        Ok(paths) => listing_reply(json_array(&paths)),
        Err(error) => Err(error),
    }
}

/// Two runs of items of which each holds what the other holds, as often,
/// still do so after every item was mapped.
proof fn lemma_map_keeps_contents(
    a: Seq<Seq<char>>,
    b: Seq<Seq<char>>,
    f: spec_fn(Seq<char>) -> Seq<char>,
)
    requires
        a.to_multiset() == b.to_multiset(),
    ensures
        a.map_values(f).to_multiset() == b.map_values(f).to_multiset(),
    decreases a.len(),
{
    vstd::seq_lib::to_multiset_len(a);
    vstd::seq_lib::to_multiset_len(b);
    if a.len() == 0 {
        assert(a.map_values(f) =~= b.map_values(f));
    } else {
        let x = a.last();
        let rest = a.drop_last();
        assert(a =~= rest.push(x));
        vstd::seq_lib::to_multiset_build(rest, x);
        assert(a.to_multiset().count(x) > 0);
        vstd::seq_lib::to_multiset_contains(b, x);
        let k = choose|k: int| 0 <= k < b.len() && b[k] == x;
        let others = b.remove(k);
        vstd::seq_lib::to_multiset_remove(b, k);
        assert(rest.to_multiset() =~= a.to_multiset().remove(x));
        lemma_map_keeps_contents(rest, others, f);
        assert(a.map_values(f) =~= rest.map_values(f).push(f(x)));
        assert(b.map_values(f) =~= others.map_values(f).insert(k, f(x)));
        vstd::seq_lib::to_multiset_build(rest.map_values(f), f(x));
        vstd::seq_lib::to_multiset_insert(others.map_values(f), k, f(x));
    }
}

/// A directory is listed in one way, in whatever order its entries are met:
/// two runs over the same entries give the same paths in the same order, and
/// the one can be listed if the other can.
pub proof fn lemma_listing_ignores_order(a: Seq<Seq<char>>, b: Seq<Seq<char>>)
    requires
        a.to_multiset() == b.to_multiset(),
    ensures
        listing(a) == listing(b),
        (forall|i: int| 0 <= i < a.len() ==> listable(#[trigger] a[i])) <==> (forall|i: int|
            0 <= i < b.len() ==> listable(#[trigger] b[i])),
{
    let each = |raw: Seq<char>| listed(raw);
    lemma_map_keeps_contents(a, b, each);
    lemma_path_order_total();
    a.map_values(each).lemma_sort_by_ensures(path_order());
    b.map_values(each).lemma_sort_by_ensures(path_order());
    lemma_sorted_unique(listing(a), listing(b), path_order());
    assert forall|i: int| 0 <= i < a.len() implies b.contains(#[trigger] a[i]) by {
        assert(a.contains(a[i]));
        vstd::seq_lib::to_multiset_contains(a, a[i]);
        vstd::seq_lib::to_multiset_contains(b, a[i]);
    }
    assert forall|i: int| 0 <= i < b.len() implies a.contains(#[trigger] b[i]) by {
        assert(b.contains(b[i]));
        vstd::seq_lib::to_multiset_contains(a, b[i]);
        vstd::seq_lib::to_multiset_contains(b, b[i]);
    }
}

} // verus!
