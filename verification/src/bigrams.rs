//! Bigram counts as they come out of a pickled dictionary
//! `{(w1, w2, ...): count}`.
use vstd::prelude::*;

verus! {

/// One bigram of the corpus and how often it occurs.
#[derive(Debug, Clone)]
pub struct Entry {
    pub w1: String,
    pub w2: String,
    pub count: i64,
}

/// An item of a tuple key: a string, or anything else.
#[derive(Debug)]
pub enum KeyItem {
    Str(String),
    NotStr,
}

/// A dictionary key: a tuple of items, or anything else.
#[derive(Debug)]
pub enum DictKey {
    Tuple(Vec<KeyItem>),
    NotTuple,
}

/// A dictionary value: a machine-size integer, or anything else.
#[derive(Debug)]
pub enum DictValue {
    Int(i64),
    NotInt,
}

/// A decoded pickle document: a dictionary with its items in order, or
/// anything else.
#[derive(Debug)]
pub enum PickleDoc {
    Dict(Vec<(DictKey, DictValue)>),
    NotDict,
}

/// The text of a string item (empty for any other item).
pub open spec fn item_text(item: KeyItem) -> Seq<char> {
    match item {
        KeyItem::Str(s) => s@,
        KeyItem::NotStr => Seq::empty(),
    }
}

/// Every item of the tuple is a string.
pub open spec fn all_strings(items: Seq<KeyItem>) -> bool {
    forall|i: int| 0 <= i < items.len() ==> (#[trigger] items[i]) is Str
}

/// A dictionary item describes a bigram: its key is a tuple of at least two
/// strings and its value is an integer.
pub open spec fn is_bigram_item(item: (DictKey, DictValue)) -> bool {
    &&& item.0 matches DictKey::Tuple(items) && all_strings(items@) && items.len() >= 2
    &&& item.1 is Int
}

/// The entry that a bigram item describes: the first two strings of the key
/// and the count.
pub open spec fn entry_matches(e: Entry, item: (DictKey, DictValue)) -> bool {
    &&& item.0 matches DictKey::Tuple(items) && e.w1@ == item_text(items@[0]) && e.w2@
        == item_text(items@[1])
    &&& item.1 matches DictValue::Int(c) && e.count == c
}

/// The document is a dictionary whose every item describes a bigram.
pub open spec fn bigram_dict(doc: &PickleDoc) -> bool {
    doc matches PickleDoc::Dict(items) && forall|i: int|
        0 <= i < items.len() ==> is_bigram_item(#[trigger] items@[i])
}

/// Whether every item of the tuple is a string.
fn is_all_strings(items: &Vec<KeyItem>) -> (b: bool)
    ensures
        b == all_strings(items@),
{
    let mut i: usize = 0;
    while i < items.len()
        invariant
            i <= items.len(),
            forall|j: int| 0 <= j < i ==> (#[trigger] items@[j]) is Str,
        decreases items.len() - i,
    {
        if let KeyItem::NotStr = &items[i] {
            assert(!(items@[i as int] is Str));
            return false;
        }
        i = i + 1;
    }
    true
}

/// Whether `doc` is a dictionary whose every item describes a bigram: the
/// documents `entries_from_pickle` accepts.
pub fn is_bigram_dict(doc: &PickleDoc) -> (b: bool)
    ensures
        b == bigram_dict(doc),
{
    match doc {
        PickleDoc::NotDict => false,
        PickleDoc::Dict(items) => {
            let mut i: usize = 0;
            while i < items.len()
                invariant
                    i <= items.len(),
                    doc matches PickleDoc::Dict(its) && its@ == items@,
                    forall|j: int| 0 <= j < i ==> is_bigram_item(#[trigger] items@[j]),
                decreases items.len() - i,
            {
                let (key, value) = &items[i];
                let ok = match key {
                    DictKey::Tuple(t) => t.len() >= 2 && is_all_strings(t),
                    DictKey::NotTuple => false,
                } && match value {
                    DictValue::Int(_) => true,
                    DictValue::NotInt => false,
                };
                if !ok {
                    assert(!is_bigram_item(items@[i as int]));
                    return false;
                }
                i = i + 1;
            }
            true
        },
    }
}

/// The strings of a tuple key whose items are all strings.
pub fn w1w2_to_str(w1w2: &Vec<KeyItem>) -> (res: Vec<String>)
    requires
        all_strings(w1w2@),
    ensures
        res.len() == w1w2.len(),
        forall|i: int| 0 <= i < res.len() ==> (#[trigger] res@[i])@ == item_text(w1w2@[i]),
{
    let mut out: Vec<String> = Vec::new();
    let mut i: usize = 0;
    while i < w1w2.len()
        invariant
            i <= w1w2.len(),
            all_strings(w1w2@),
            out.len() == i,
            forall|j: int| 0 <= j < i ==> (#[trigger] out@[j])@ == item_text(w1w2@[j]),
        decreases w1w2.len() - i,
    {
        assert(w1w2@[i as int] is Str);
        if let KeyItem::Str(s) = &w1w2[i] {
            out.push(s.clone());
        }
        i = i + 1;
    }
    out
}

/// The bigram entries of a pickled bigram dictionary, in the dictionary's
/// order.
pub fn entries_from_pickle(doc: &PickleDoc) -> (es: Vec<Entry>)
    requires
        bigram_dict(doc),
    ensures
        doc matches PickleDoc::Dict(items) && es.len() == items.len() && forall|i: int|
            0 <= i < es.len() ==> entry_matches(#[trigger] es@[i], items@[i]),
{
    let mut es: Vec<Entry> = Vec::new();
    if let PickleDoc::Dict(items) = doc {
        let mut i: usize = 0;
        while i < items.len()
            invariant
                i <= items.len(),
                es.len() == i,
                doc matches PickleDoc::Dict(its) && its@ == items@,
                bigram_dict(doc),
                forall|j: int| 0 <= j < i ==> entry_matches(#[trigger] es@[j], items@[j]),
            decreases items.len() - i,
        {
            let (key, value) = &items[i];
            assert(is_bigram_item(items@[i as int]));
            if let DictKey::Tuple(t) = key {
                if let DictValue::Int(c) = value {
                    let words = w1w2_to_str(t);
                    es.push(Entry { w1: words[0].clone(), w2: words[1].clone(), count: *c });
                }
            }
            i = i + 1;
        }
    }
    es
}

} // verus!

verus! {

/// `x` is within the range of `i64`.
pub open spec fn fits_i64(x: int) -> bool {
    i64::MIN <= x <= i64::MAX
}

/// The sum of the counts of `es`.
pub open spec fn count_sum(es: Seq<Entry>) -> int
    decreases es.len(),
{
    if es.len() == 0 {
        0
    } else {
        count_sum(es.drop_last()) + es.last().count
    }
}

/// Adding up the counts of `es` from the first leaves the `i64` range at
/// some step.
pub open spec fn count_sum_overflows(es: Seq<Entry>) -> bool {
    exists|i: int| 0 <= i <= es.len() && !fits_i64(#[trigger] count_sum(es.take(i)))
}

/// The sum of the counts of `entries`; `None` when a running sum leaves the
/// `i64` range.
pub fn total_count(entries: &Vec<Entry>) -> (res: Option<i64>)
    ensures
        res is None <==> count_sum_overflows(entries@),
        res matches Some(t) ==> t == count_sum(entries@),
{
    let mut total: i64 = 0;
    let mut i: usize = 0;
    assert(entries@.take(0) =~= Seq::<Entry>::empty());
    while i < entries.len()
        invariant
            i <= entries.len(),
            total == count_sum(entries@.take(i as int)),
            forall|j: int| 0 <= j <= i ==> fits_i64(#[trigger] count_sum(entries@.take(j))),
        decreases entries.len() - i,
    {
        assert(entries@.take(i + 1).drop_last() =~= entries@.take(i as int));
        match total.checked_add(entries[i].count) {
            Some(t) => {
                total = t;
            },
            None => {
                assert(!fits_i64(count_sum(entries@.take(i + 1))));
                return None;
            },
        }
        i = i + 1;
    }
    assert(entries@.take(entries.len() as int) =~= entries@);
    proof {
        if count_sum_overflows(entries@) {
            let j = choose|j: int|
                0 <= j <= entries@.len() && !fits_i64(#[trigger] count_sum(entries@.take(j)));
            assert(fits_i64(count_sum(entries@.take(j))));
        }
    }
    Some(total)
}

} // verus!

verus! {

/// A copy of `es`, entry by entry.
pub(crate) fn copy_entries(es: &Vec<Entry>) -> (res: Vec<Entry>)
    ensures
        res@ == es@,
{
    let mut res: Vec<Entry> = Vec::new();
    let mut i: usize = 0;
    while i < es.len()
        invariant
            i <= es.len(),
            res@ == es@.take(i as int),
        decreases es.len() - i,
    {
        let e = &es[i];
        res.push(Entry { w1: e.w1.clone(), w2: e.w2.clone(), count: e.count });
        assert(res@ =~= es@.take(i + 1));
        i = i + 1;
    }
    assert(es@.take(es.len() as int) =~= es@);
    res
}

/// An item of a tuple key seen as its text, or `None` when it is not a
/// string.
pub open spec fn key_item_view(k: KeyItem) -> Option<Seq<char>> {
    match k {
        KeyItem::Str(s) => Some(s@),
        KeyItem::NotStr => None,
    }
}

/// A dictionary item seen as plain values: the key's items when it is a
/// tuple, and the count when the value is an integer.
pub type ItemView = (Option<Seq<Option<Seq<char>>>>, Option<i64>);

/// A dictionary item seen as plain values.
pub open spec fn item_view(item: (DictKey, DictValue)) -> ItemView {
    (
        match item.0 {
            DictKey::Tuple(t) => Some(t@.map_values(|x: KeyItem| key_item_view(x))),
            DictKey::NotTuple => None,
        },
        match item.1 {
            DictValue::Int(c) => Some(c),
            DictValue::NotInt => None,
        },
    )
}

impl View for PickleDoc {
    type V = Option<Seq<ItemView>>;

    /// The document's items seen as plain values, or `None` when it is not
    /// a dictionary.
    open spec fn view(&self) -> Option<Seq<ItemView>> {
        match self {
            PickleDoc::Dict(items) => Some(items@.map_values(|it: (DictKey, DictValue)| item_view(it))),
            PickleDoc::NotDict => None,
        }
    }
}

/// What `serde_pickle::value_from_slice` decodes from `bytes`, seen as a
/// `PickleDoc`: `None` when the bytes are not a pickle.
pub uninterp spec fn decoded_pickle(bytes: Seq<u8>) -> Option<Option<Seq<ItemView>>>;

/// Calls `serde_pickle::value_from_slice` and keeps of the value what the
/// bigram dictionary needs: whether it is a dictionary and, for each item in
/// the dictionary's order, the strings of a tuple key and an `I64` count.
/// Trusted: the result depends on the bytes alone; what the decoder makes of
/// them is left to the name `decoded_pickle`.
#[verifier::external_body]
fn decode_pickle(bytes: &[u8]) -> (r: Option<PickleDoc>)
    ensures
        match r {
            Some(d) => decoded_pickle(bytes@) == Some(d@),
            None => decoded_pickle(bytes@) is None,
        },
{
    let map = match serde_pickle::value_from_slice(bytes, serde_pickle::DeOptions::new()) {
        Ok(serde_pickle::Value::Dict(map)) => map,
        Ok(_) => return Some(PickleDoc::NotDict),
        Err(_) => return None,
    };
    Some(PickleDoc::Dict(map.into_iter().map(|(k, v)| (match k {
        serde_pickle::HashableValue::Tuple(t) => DictKey::Tuple(t.into_iter().map(|x| match x {
            serde_pickle::HashableValue::String(s) => KeyItem::Str(s),
            _ => KeyItem::NotStr,
        }).collect()),
        _ => DictKey::NotTuple,
    }, match v {
        serde_pickle::Value::I64(c) => DictValue::Int(c),
        _ => DictValue::NotInt,
    })).collect()))
}

/// A dictionary item, seen as plain values, describes a bigram.
pub open spec fn bigram_item_view(it: ItemView) -> bool {
    &&& it.0 matches Some(t) && t.len() >= 2 && forall|j: int| 0 <= j < t.len() ==> (#[trigger] t[j]) is Some
    &&& it.1 is Some
}

/// `e` is the entry that the item, seen as plain values, describes.
pub open spec fn entry_of_item(e: Entry, it: ItemView) -> bool {
    &&& it.0 matches Some(t) && t[0] == Some(e.w1@) && t[1] == Some(e.w2@)
    &&& it.1 == Some(e.count)
}

/// The bigram entries of a pickled dictionary `{(w1, w2, ...): count}`, in
/// the dictionary's order; `None` when the bytes do not decode, or decode to
/// something else than a dictionary whose every key is a tuple of at least
/// two strings and whose every value is an integer.
pub fn load_entries(bytes: &[u8]) -> (res: Option<Vec<Entry>>)
    ensures
        res is Some <==> (decoded_pickle(bytes@) matches Some(v) && v matches Some(items)
            && forall|i: int| 0 <= i < items.len() ==> bigram_item_view(#[trigger] items[i])),
        res matches Some(es) ==> decoded_pickle(bytes@) matches Some(v) && v matches Some(items)
            && es.len() == items.len() && forall|i: int|
            0 <= i < es.len() ==> entry_of_item(#[trigger] es@[i], items[i]),
{
    let doc = match decode_pickle(bytes) {
        Some(d) => d,
        None => {
            return None;
        },
    };
    let ghost gdoc = doc;
    proof {
        if let PickleDoc::Dict(items) = gdoc {
            assert forall|i: int| 0 <= i < items.len() implies is_bigram_item(#[trigger] items@[i])
                == bigram_item_view(item_view(items@[i])) by {
                let it = items@[i];
                if let DictKey::Tuple(t) = it.0 {
                    let tv = t@.map_values(|x: KeyItem| key_item_view(x));
                    assert(all_strings(t@) == forall|j: int| 0 <= j < tv.len() ==> (#[trigger] tv[j]) is Some) by {
                        if all_strings(t@) {
                            assert forall|j: int| 0 <= j < tv.len() implies (#[trigger] tv[j]) is Some by {
                                assert(t@[j] is Str);
                            }
                        }
                        if forall|j: int| 0 <= j < tv.len() ==> (#[trigger] tv[j]) is Some {
                            assert forall|j: int| 0 <= j < t@.len() implies (#[trigger] t@[j]) is Str by {
                                assert(tv[j] is Some);
                            }
                        }
                    }
                }
            }
        }
    }
    if !is_bigram_dict(&doc) {
        proof {
            if let PickleDoc::Dict(items) = gdoc {
                let i = choose|i: int| 0 <= i < items.len() && !is_bigram_item(#[trigger] items@[i]);
                assert(!bigram_item_view(doc@->Some_0[i]));
            }
        }
        return None;
    }
    let es = entries_from_pickle(&doc);
    proof {
        if let PickleDoc::Dict(items) = gdoc {
            assert forall|i: int| 0 <= i < es.len() implies entry_of_item(#[trigger] es@[i], doc@->Some_0[i]) by {
                assert(entry_matches(es@[i], items@[i]));
                assert(is_bigram_item(items@[i]));
                if let DictKey::Tuple(t) = items@[i].0 {
                    assert(t@[0] is Str);
                    assert(t@[1] is Str);
                }
            }
            assert forall|i: int| 0 <= i < items.len() implies bigram_item_view(#[trigger] doc@->Some_0[i]) by {
                assert(is_bigram_item(items@[i]));
            }
        }
    }
    Some(es)
}

} // verus!
