//! Storing a state as bytes.
//!
//! A state is first laid out as a frame of plain values: its scalars, its
//! eight lists, and its variables as a run of tokens.  The frame is then
//! archived as bytes.  Reading goes the other way, and checks on the way
//! that the bytes hold a frame and that the frame holds a state.

use vstd::prelude::*;
use vstd::string::StringSliceAdditionalSpecFns;
use vstd::utf8::encode_utf8;
use crate::float::Float64;
use crate::json::lemma_array_view;
use crate::json::lemma_object_view;
use crate::json::Entries;
use crate::json::JsonModel;
use crate::json::JsonNumber;
use crate::json::JsonObject;
use crate::json::JsonValue;
use crate::state::State;
use crate::state::StateView;

verus! {

/// One token of a flattened value: its kind, a number, and a text.
pub type Token = (u8, u64, String);

/// What a token is.
pub type TokenView = (u8, u64, Seq<char>);

pub const KIND_NULL: u8 = 0;

pub const KIND_BOOL: u8 = 1;

pub const KIND_POS_INT: u8 = 2;

pub const KIND_NEG_INT: u8 = 3;

pub const KIND_FLOAT: u8 = 4;

pub const KIND_STRING: u8 = 5;

pub const KIND_ARRAY: u8 = 6;

pub const KIND_OBJECT: u8 = 7;

pub const KIND_KEY: u8 = 8;

/// The 64 bits that stand for a signed integer, in two's complement.
pub open spec fn signed_bits(n: i64) -> u64 {
    if n >= 0 {
        n as u64
    } else {
        (n + 0x1_0000_0000_0000_0000) as u64
    }
}

/// The signed integer that 64 bits stand for.
pub open spec fn bits_signed(b: u64) -> i64 {
    if b < 0x8000_0000_0000_0000 {
        b as i64
    } else {
        (b - 0x1_0000_0000_0000_0000) as i64
    }
}

/// The token that opens a value: it tells the kind of the value, and holds
/// what a scalar is or how many parts a composite has.
pub open spec fn header(v: JsonModel) -> TokenView {
    match v {
        JsonModel::Null => (KIND_NULL, 0u64, Seq::empty()),
        JsonModel::Bool(b) => (KIND_BOOL, if b { 1u64 } else { 0u64 }, Seq::empty()),
        JsonModel::Number(JsonNumber::PosInt(n)) => (KIND_POS_INT, n, Seq::empty()),
        JsonModel::Number(JsonNumber::NegInt(n)) => (KIND_NEG_INT, signed_bits(n), Seq::empty()),
        JsonModel::Number(JsonNumber::Float(f)) => (KIND_FLOAT, f.bits, Seq::empty()),
        JsonModel::String(s) => (KIND_STRING, 0u64, s),
        JsonModel::Array(items) => (KIND_ARRAY, items.len() as u64, Seq::empty()),
        JsonModel::Object(entries) => (KIND_OBJECT, entries.len() as u64, Seq::empty()),
    }
}

/// A value flattened: its header, then its parts in order, each flattened in
/// the same way; an entry of an object is its key and then its value.
pub open spec fn tokens_of(v: JsonModel) -> Seq<TokenView>
    decreases v, 0nat,
{
    match v {
        JsonModel::Array(items) => seq![header(v)] + items_tokens(items, items.len()),
        JsonModel::Object(entries) => seq![header(v)] + entries_tokens(entries, entries.len()),
        _ => seq![header(v)],
    }
}

/// The first `n` items of an array, flattened one after the other.
pub open spec fn items_tokens(items: Seq<JsonModel>, n: nat) -> Seq<TokenView>
    decreases items, n,
{
    if n == 0 || n > items.len() {
        Seq::empty()
    } else {
        items_tokens(items, (n - 1) as nat) + tokens_of(items[n - 1])
    }
}

/// The first `n` entries of an object, flattened one after the other.
pub open spec fn entries_tokens(entries: Entries, n: nat) -> Seq<TokenView>
    decreases entries, n,
{
    if n == 0 || n > entries.len() {
        Seq::empty()
    } else {
        entries_tokens(entries, (n - 1) as nat) + seq![(KIND_KEY, 0u64, entries[n - 1].0)]
            + tokens_of(entries[n - 1].1)
    }
}

/// What a run of tokens is.
pub open spec fn tokens_view(tokens: Seq<Token>) -> Seq<TokenView> {
    Seq::new(tokens.len(), |i: int| (tokens[i].0, tokens[i].1, tokens[i].2@))
}

/// `part` stands in `tokens` from place `at` on.
pub open spec fn stands_at(tokens: Seq<TokenView>, at: int, part: Seq<TokenView>) -> bool {
    &&& 0 <= at
    &&& at + part.len() <= tokens.len()
    &&& tokens.subrange(at, at + part.len()) == part
}

/// A flattened value opens with its header.
pub proof fn lemma_tokens_head(v: JsonModel)
    ensures
        tokens_of(v).len() >= 1,
        tokens_of(v)[0] == header(v),
        !(v is Array) && !(v is Object) ==> tokens_of(v) == seq![header(v)],
{
    reveal_with_fuel(tokens_of, 2);
}

/// The items of an array lie one after the other: the tokens of the first
/// `n + 1` items are those of the first `n`, then those of item `n`.
pub proof fn lemma_items_next(items: Seq<JsonModel>, n: nat)
    requires
        n < items.len(),
    ensures
        items_tokens(items, n + 1) == items_tokens(items, n) + tokens_of(items[n as int]),
{
    reveal_with_fuel(items_tokens, 2);
}

/// The tokens of the first `n` items open those of the first `m`.
pub proof fn lemma_items_prefix(items: Seq<JsonModel>, n: nat, m: nat)
    requires
        n <= m <= items.len(),
    ensures
        items_tokens(items, n).len() <= items_tokens(items, m).len(),
        items_tokens(items, m).subrange(0, items_tokens(items, n).len() as int) == items_tokens(
            items,
            n,
        ),
    decreases m - n,
{
    if n < m {
        lemma_items_prefix(items, n, (m - 1) as nat);
        lemma_items_next(items, (m - 1) as nat);
        let a = items_tokens(items, (m - 1) as nat);
        let b = tokens_of(items[m - 1]);
        assert((a + b).subrange(0, items_tokens(items, n).len() as int) =~= a.subrange(
            0,
            items_tokens(items, n).len() as int,
        ));
    } else {
        assert(items_tokens(items, m).subrange(0, items_tokens(items, n).len() as int)
            =~= items_tokens(items, n));
    }
}

/// The entries of an object lie one after the other.
pub proof fn lemma_entries_next(entries: Entries, n: nat)
    requires
        n < entries.len(),
    ensures
        entries_tokens(entries, n + 1) == entries_tokens(entries, n) + seq![
            (KIND_KEY, 0u64, entries[n as int].0),
        ] + tokens_of(entries[n as int].1),
{
    reveal_with_fuel(entries_tokens, 2);
}

/// The tokens of the first `n` entries open those of the first `m`.
pub proof fn lemma_entries_prefix(entries: Entries, n: nat, m: nat)
    requires
        n <= m <= entries.len(),
    ensures
        entries_tokens(entries, n).len() <= entries_tokens(entries, m).len(),
        entries_tokens(entries, m).subrange(0, entries_tokens(entries, n).len() as int)
            == entries_tokens(entries, n),
    decreases m - n,
{
    if n < m {
        lemma_entries_prefix(entries, n, (m - 1) as nat);
        lemma_entries_next(entries, (m - 1) as nat);
        let a = entries_tokens(entries, (m - 1) as nat);
        let b = seq![(KIND_KEY, 0u64, entries[m - 1].0)] + tokens_of(entries[m - 1].1);
        assert(a + seq![(KIND_KEY, 0u64, entries[m - 1].0)] + tokens_of(entries[m - 1].1) =~= a
            + b);
        assert((a + b).subrange(0, entries_tokens(entries, n).len() as int) =~= a.subrange(
            0,
            entries_tokens(entries, n).len() as int,
        ));
    } else {
        assert(entries_tokens(entries, m).subrange(0, entries_tokens(entries, n).len() as int)
            =~= entries_tokens(entries, n));
    }
}

/// The 64 bits of a signed integer.
pub fn bits_of_signed(n: i64) -> (b: u64)
    ensures
        b == signed_bits(n),
        bits_signed(b) == n,
{
    if n >= 0 {
        n as u64
    } else {
        u64::MAX - ((-(n + 1)) as u64)
    }
}

/// The signed integer of 64 bits.
pub fn signed_of_bits(b: u64) -> (n: i64)
    ensures
        n == bits_signed(b),
        signed_bits(n) == b,
{
    if b < 0x8000_0000_0000_0000 {
        b as i64
    } else {
        -((u64::MAX - b) as i64) - 1
    }
}

fn push_token(out: &mut Vec<Token>, kind: u8, number: u64, text: String)
    ensures
        tokens_view(final(out)@) == tokens_view(old(out)@).push((kind, number, text@)),
{
    out.push((kind, number, text));
    assert(tokens_view(out@) =~= tokens_view(old(out)@).push((kind, number, text@)));
}

/// Flattens a value, adding its tokens to `out`.
pub fn flatten(value: &JsonValue, out: &mut Vec<Token>)
    ensures
        tokens_view(final(out)@) == tokens_view(old(out)@) + tokens_of(value@),
    decreases *value,
{
    let ghost before = tokens_view(out@);
    proof {
        lemma_tokens_head(value@);
    }
    match value {
        JsonValue::Null => {
            push_token(out, KIND_NULL, 0, String::new());
            assert(tokens_view(out@) =~= before + tokens_of(value@));
        },
        JsonValue::Bool(b) => {
            push_token(out, KIND_BOOL, if *b { 1 } else { 0 }, String::new());
            assert(tokens_view(out@) =~= before + tokens_of(value@));
        },
        JsonValue::Number(n) => {
            match n {
                JsonNumber::PosInt(n) => push_token(out, KIND_POS_INT, *n, String::new()),
                JsonNumber::NegInt(n) => push_token(
                    out,
                    KIND_NEG_INT,
                    bits_of_signed(*n),
                    String::new(),
                ),
                JsonNumber::Float(f) => push_token(out, KIND_FLOAT, f.bits, String::new()),
            }
            assert(tokens_view(out@) =~= before + tokens_of(value@));
        },
        JsonValue::String(s) => {
            push_token(out, KIND_STRING, 0, s.clone());
            assert(tokens_view(out@) =~= before + tokens_of(value@));
        },
        JsonValue::Array(items) => {
            proof {
                lemma_array_view(*value);
            }
            let ghost models = value@->Array_0;
            push_token(out, KIND_ARRAY, items.len() as u64, String::new());
            let mut i: usize = 0;
            while i < items.len()
                invariant
                    *value == JsonValue::Array(*items),
                    value@ == JsonModel::Array(models),
                    models.len() == items@.len(),
                    forall|j: int| 0 <= j < items@.len() ==> models[j] == (#[trigger] items@[j])@,
                    i <= items@.len(),
                    tokens_view(out@) == before + seq![header(value@)] + items_tokens(
                        models,
                        i as nat,
                    ),
                decreases items@.len() - i,
            {
                proof {
                    assert(value->Array_0 == *items);
                    lemma_items_next(models, i as nat);
                }
                let ghost so_far = tokens_view(out@);
                flatten(&items[i], out);
                assert(tokens_view(out@) =~= before + seq![header(value@)] + items_tokens(
                    models,
                    (i + 1) as nat,
                ));
                i += 1;
            }
            assert(tokens_view(out@) =~= before + tokens_of(value@));
        },
        JsonValue::Object(object) => {
            proof {
                lemma_object_view(*value);
            }
            let ghost models = object@;
            push_token(out, KIND_OBJECT, object.entries.len() as u64, String::new());
            let mut i: usize = 0;
            while i < object.entries.len()
                invariant
                    *value == JsonValue::Object(*object),
                    value@ == JsonModel::Object(models),
                    models == object@,
                    i <= object.entries@.len(),
                    tokens_view(out@) == before + seq![header(value@)] + entries_tokens(
                        models,
                        i as nat,
                    ),
                decreases object.entries@.len() - i,
            {
                proof {
                    assert(value->Object_0 == *object);
                    lemma_entries_next(models, i as nat);
                }
                push_token(out, KIND_KEY, 0, object.entries[i].0.clone());
                flatten(&object.entries[i].1, out);
                assert(tokens_view(out@) =~= before + seq![header(value@)] + entries_tokens(
                    models,
                    (i + 1) as nat,
                ));
                i += 1;
            }
            assert(tokens_view(out@) =~= before + tokens_of(value@));
        },
    }
}

/// What the items of a list of values are.
pub open spec fn models_of(items: Seq<JsonValue>) -> Seq<JsonModel> {
    Seq::new(items.len(), |j: int| items[j]@)
}

/// What the entries of a list of entries are.
pub open spec fn entry_models_of(entries: Seq<(String, JsonValue)>) -> Entries {
    Seq::new(entries.len(), |j: int| (entries[j].0@, entries[j].1@))
}

/// The tokens of the first `n` items depend on those items alone.
pub proof fn lemma_items_agree(a: Seq<JsonModel>, b: Seq<JsonModel>, n: nat)
    requires
        n <= a.len(),
        n <= b.len(),
        forall|j: int| 0 <= j < n ==> a[j] == b[j],
    ensures
        items_tokens(a, n) == items_tokens(b, n),
    decreases n,
{
    reveal_with_fuel(items_tokens, 2);
    if n > 0 {
        lemma_items_agree(a, b, (n - 1) as nat);
    }
}

/// The tokens of the first `n` entries depend on those entries alone.
pub proof fn lemma_entries_agree(a: Entries, b: Entries, n: nat)
    requires
        n <= a.len(),
        n <= b.len(),
        forall|j: int| 0 <= j < n ==> a[j] == b[j],
    ensures
        entries_tokens(a, n) == entries_tokens(b, n),
    decreases n,
{
    reveal_with_fuel(entries_tokens, 2);
    if n > 0 {
        lemma_entries_agree(a, b, (n - 1) as nat);
    }
}

/// Where a flattened array stands, each of its items stands after the items
/// before it.
pub proof fn lemma_item_stands(tokens: Seq<TokenView>, at: int, items: Seq<JsonModel>, i: nat)
    requires
        stands_at(tokens, at, tokens_of(JsonModel::Array(items))),
        i < items.len(),
    ensures
        stands_at(tokens, at + 1 + items_tokens(items, i).len(), tokens_of(items[i as int])),
        items_tokens(items, i + 1).len() == items_tokens(items, i).len() + tokens_of(
            items[i as int],
        ).len(),
{
    reveal_with_fuel(tokens_of, 2);
    let whole = tokens_of(JsonModel::Array(items));
    let all = items_tokens(items, items.len());
    let before = items_tokens(items, i);
    let item = tokens_of(items[i as int]);
    lemma_items_next(items, i);
    lemma_items_prefix(items, i + 1, items.len());
    assert(whole =~= seq![header(JsonModel::Array(items))] + all);
    let from = at + 1 + before.len();
    assert(all.subrange(0, (before + item).len() as int) == before + item);
    assert(tokens.subrange(from, from + item.len()) =~= item) by {
        assert forall|k: int| 0 <= k < item.len() implies tokens[from + k] == item[k] by {
            assert(tokens.subrange(at, at + whole.len())[1 + before.len() + k] == whole[1
                + before.len() + k]);
            assert(all.subrange(0, (before + item).len() as int)[before.len() + k] == (before
                + item)[before.len() + k]);
        }
    }
}

/// Where a flattened object stands, each of its entries stands after the
/// entries before it: first its key, then its value.
pub proof fn lemma_entry_stands(tokens: Seq<TokenView>, at: int, entries: Entries, i: nat)
    requires
        stands_at(tokens, at, tokens_of(JsonModel::Object(entries))),
        i < entries.len(),
    ensures
        at + 1 + entries_tokens(entries, i).len() < tokens.len(),
        tokens[at + 1 + entries_tokens(entries, i).len()] == (
            KIND_KEY,
            0u64,
            entries[i as int].0,
        ),
        stands_at(
            tokens,
            at + 2 + entries_tokens(entries, i).len(),
            tokens_of(entries[i as int].1),
        ),
        entries_tokens(entries, i + 1).len() == entries_tokens(entries, i).len() + 1 + tokens_of(
            entries[i as int].1,
        ).len(),
{
    reveal_with_fuel(tokens_of, 2);
    let whole = tokens_of(JsonModel::Object(entries));
    let all = entries_tokens(entries, entries.len());
    let before = entries_tokens(entries, i);
    let key = seq![(KIND_KEY, 0u64, entries[i as int].0)];
    let item = tokens_of(entries[i as int].1);
    lemma_entries_next(entries, i);
    lemma_entries_prefix(entries, i + 1, entries.len());
    assert(whole =~= seq![header(JsonModel::Object(entries))] + all);
    let from = at + 1 + before.len();
    let part = before + key + item;
    assert(all.subrange(0, part.len() as int) == part);
    assert forall|k: int| 0 <= k < 1 + item.len() implies tokens[from + k] == (key + item)[k] by {
        assert(tokens.subrange(at, at + whole.len())[1 + before.len() + k] == whole[1
            + before.len() + k]);
        assert(all.subrange(0, part.len() as int)[before.len() + k] == part[before.len() + k]);
    }
    assert(tokens[from] == (key + item)[0]);
    assert(tokens.subrange(from + 1, from + 1 + item.len()) =~= item) by {
        assert forall|k: int| 0 <= k < item.len() implies tokens[from + 1 + k] == item[k] by {
            assert(tokens[from + (1 + k)] == (key + item)[1 + k]);
        }
    }
}

/// What stands at `pos` is what a value flattens to, for at most one value.
pub open spec fn reads_as(tokens: Seq<Token>, pos: int, w: JsonValue) -> bool {
    stands_at(tokens_view(tokens), pos, tokens_of(w@))
}

/// Reads the value that stands at `pos`, and tells where it ends.  A value is
/// read exactly where the tokens from `pos` on open with what some value
/// flattens to; that value is then the one read.  An object is read with
/// the entries that the tokens hold, also where they hold a key twice:
/// whether the value read is well keyed is for
/// [`JsonValue::is_well_keyed`] to tell.
pub fn parse_value(tokens: &Vec<Token>, pos: usize) -> (r: Option<(JsonValue, usize)>)
    ensures
        r matches Some((value, next)) ==> pos < next <= tokens@.len() && tokens_view(
            tokens@,
        ).subrange(pos as int, next as int) == tokens_of(value@),
        forall|w: JsonValue| #[trigger]
            reads_as(tokens@, pos as int, w) ==> (r matches Some((value, next)) && value@ == w@),
    decreases tokens@.len() - pos,
{
    let ghost tv = tokens_view(tokens@);
    if pos >= tokens.len() {
        proof {
            assert forall|w: JsonValue| !(#[trigger] reads_as(tokens@, pos as int, w)) by {
                lemma_tokens_head(w@);
            }
        }
        return None;
    }
    let kind = tokens[pos].0;
    let number = tokens[pos].1;
    let blank = tokens[pos].2.as_str().is_empty();
    proof {
        assert forall|w: JsonValue| #[trigger] reads_as(tokens@, pos as int, w) implies header(w@)
            == tv[pos as int] by {
            lemma_tokens_head(w@);
            assert(tv.subrange(pos as int, pos + tokens_of(w@).len())[0] == tokens_of(w@)[0]);
        }
        assert(tv[pos as int] == (kind, number, tokens@[pos as int].2@));
    }
    if kind == KIND_ARRAY && blank {
        let mut items: Vec<JsonValue> = Vec::new();
        let mut p: usize = pos + 1;
        let mut i: u64 = 0;
        proof {
            assert(tv[pos as int].2 =~= Seq::<char>::empty());
            assert(tv.subrange(pos + 1, p as int) =~= Seq::<TokenView>::empty());
            assert forall|w: JsonValue| #[trigger] reads_as(tokens@, pos as int, w) implies w@
                is Array && w@->Array_0.len() == number by {
                if w is Array {
                    lemma_array_view(w);
                    assert(w->Array_0.len() == w->Array_0@.len());
                }
                if w is Object {
                    lemma_object_view(w);
                }
            }
        }
        while i < number
            invariant
                tv == tokens_view(tokens@),
                pos < p <= tokens@.len(),
                pos < tokens@.len(),
                tv[pos as int] == (KIND_ARRAY, number, Seq::<char>::empty()),
                i <= number,
                items@.len() == i,
                tv.subrange(pos + 1, p as int) == items_tokens(models_of(items@), i as nat),
                forall|w: JsonValue| #[trigger]
                    reads_as(tokens@, pos as int, w) ==> {
                        &&& w@ is Array
                        &&& w@->Array_0.len() == number
                        &&& p == pos + 1 + items_tokens(w@->Array_0, i as nat).len()
                        &&& forall|j: int|
                            0 <= j < i ==> (#[trigger] items@[j])@ == w@->Array_0[j]
                    },
            decreases number - i,
        {
            let ghost old_items = items@;
            let ghost old_p = p;
            match parse_value(tokens, p) {
                Some((value, next)) => {
                    items.push(value);
                    proof {
                        let a = models_of(old_items);
                        let b = models_of(items@);
                        lemma_items_agree(a, b, i as nat);
                        lemma_items_next(b, i as nat);
                        assert(tv.subrange(pos + 1, next as int) =~= tv.subrange(
                            pos + 1,
                            old_p as int,
                        ) + tv.subrange(old_p as int, next as int));
                        assert forall|w: JsonValue| #[trigger]
                            reads_as(tokens@, pos as int, w) implies {
                            &&& w@ is Array
                            &&& w@->Array_0.len() == number
                            &&& next == pos + 1 + items_tokens(w@->Array_0, (i + 1) as nat).len()
                            &&& forall|j: int|
                                0 <= j < i + 1 ==> (#[trigger] items@[j])@ == w@->Array_0[j]
                        } by {
                            let parts = w@->Array_0;
                            lemma_array_view(w);
                            lemma_item_stands(tv, pos as int, parts, i as nat);
                            let item = w->Array_0@[i as int];
                            assert(reads_as(tokens@, old_p as int, item));
                            assert(value@ == parts[i as int]);
                            assert(tv.subrange(old_p as int, next as int).len() == tokens_of(
                                parts[i as int],
                            ).len());
                        }
                    }
                    p = next;
                    i = i + 1;
                },
                None => {
                    proof {
                        assert forall|w: JsonValue| !(#[trigger] reads_as(
                            tokens@,
                            pos as int,
                            w,
                        )) by {
                            if reads_as(tokens@, pos as int, w) {
                                let parts = w@->Array_0;
                                lemma_array_view(w);
                                lemma_item_stands(tv, pos as int, parts, i as nat);
                                let item = w->Array_0@[i as int];
                                assert(reads_as(tokens@, old_p as int, item));
                            }
                        }
                    }
                    return None;
                },
            }
        }
        let value = JsonValue::Array(items);
        proof {
            lemma_array_view(value);
            let models = value@->Array_0;
            lemma_items_agree(models_of(items@), models, number as nat);
            assert(tv.subrange(pos as int, p as int) =~= seq![tv[pos as int]] + tv.subrange(
                pos + 1,
                p as int,
            ));
            assert(tokens_of(value@) == seq![header(value@)] + items_tokens(models, models.len()));
            assert forall|w: JsonValue| #[trigger]
                reads_as(tokens@, pos as int, w) implies value@ == w@ by {
                assert(w@->Array_0 =~= models);
            }
        }
        return Some((value, p));
    }
    if kind == KIND_OBJECT && blank {
        let mut entries: Vec<(String, JsonValue)> = Vec::new();
        let mut p: usize = pos + 1;
        let mut i: u64 = 0;
        proof {
            assert(tv[pos as int].2 =~= Seq::<char>::empty());
            assert(tv.subrange(pos + 1, p as int) =~= Seq::<TokenView>::empty());
            assert forall|w: JsonValue| #[trigger] reads_as(tokens@, pos as int, w) implies w@
                is Object && w@->Object_0.len() == number by {
                if w is Array {
                    lemma_array_view(w);
                }
                if w is Object {
                    lemma_object_view(w);
                    assert(w->Object_0.entries.len() == w->Object_0.entries@.len());
                }
            }
        }
        while i < number
            invariant
                tv == tokens_view(tokens@),
                pos < p <= tokens@.len(),
                pos < tokens@.len(),
                tv[pos as int] == (KIND_OBJECT, number, Seq::<char>::empty()),
                i <= number,
                entries@.len() == i,
                tv.subrange(pos + 1, p as int) == entries_tokens(
                    entry_models_of(entries@),
                    i as nat,
                ),
                forall|w: JsonValue| #[trigger]
                    reads_as(tokens@, pos as int, w) ==> {
                        &&& w@ is Object
                        &&& w@->Object_0.len() == number
                        &&& p == pos + 1 + entries_tokens(w@->Object_0, i as nat).len()
                        &&& forall|j: int|
                            0 <= j < i ==> ((#[trigger] entries@[j]).0@, entries@[j].1@)
                                == w@->Object_0[j]
                    },
            decreases number - i,
        {
            let ghost old_entries = entries@;
            let ghost old_p = p;
            if p >= tokens.len() || tokens[p].0 != KIND_KEY || tokens[p].1 != 0 {
                proof {
                    assert forall|w: JsonValue| !(#[trigger] reads_as(tokens@, pos as int, w)) by {
                        if reads_as(tokens@, pos as int, w) {
                            lemma_object_view(w);
                            lemma_entry_stands(tv, pos as int, w@->Object_0, i as nat);
                        }
                    }
                }
                return None;
            }
            let key = tokens[p].2.clone();
            match parse_value(tokens, p + 1) {
                Some((value, next)) => {
                    entries.push((key, value));
                    proof {
                        let a = entry_models_of(old_entries);
                        let b = entry_models_of(entries@);
                        lemma_entries_agree(a, b, i as nat);
                        lemma_entries_next(b, i as nat);
                        assert(tv.subrange(pos + 1, next as int) =~= tv.subrange(
                            pos + 1,
                            old_p as int,
                        ) + seq![tv[old_p as int]] + tv.subrange(old_p + 1, next as int));
                        assert forall|w: JsonValue| #[trigger]
                            reads_as(tokens@, pos as int, w) implies {
                            &&& w@ is Object
                            &&& w@->Object_0.len() == number
                            &&& next == pos + 1 + entries_tokens(
                                w@->Object_0,
                                (i + 1) as nat,
                            ).len()
                            &&& forall|j: int|
                                0 <= j < i + 1 ==> ((#[trigger] entries@[j]).0@, entries@[j].1@)
                                    == w@->Object_0[j]
                        } by {
                            let parts = w@->Object_0;
                            lemma_object_view(w);
                            lemma_entry_stands(tv, pos as int, parts, i as nat);
                            let item = w->Object_0.entries@[i as int].1;
                            assert(item@ == parts[i as int].1);
                            assert(reads_as(tokens@, old_p + 1, item));
                            assert(value@ == parts[i as int].1);
                            assert(tv.subrange(old_p + 1, next as int).len() == tokens_of(
                                parts[i as int].1,
                            ).len());
                        }
                    }
                    p = next;
                    i = i + 1;
                },
                None => {
                    proof {
                        assert forall|w: JsonValue| !(#[trigger] reads_as(
                            tokens@,
                            pos as int,
                            w,
                        )) by {
                            if reads_as(tokens@, pos as int, w) {
                                let parts = w@->Object_0;
                                lemma_object_view(w);
                                lemma_entry_stands(tv, pos as int, parts, i as nat);
                                let item = w->Object_0.entries@[i as int].1;
                                assert(item@ == parts[i as int].1);
                                assert(reads_as(tokens@, old_p + 1, item));
                            }
                        }
                    }
                    return None;
                },
            }
        }
        let value = JsonValue::Object(JsonObject { entries });
        proof {
            lemma_object_view(value);
            let models = value@->Object_0;
            lemma_entries_agree(entry_models_of(entries@), models, number as nat);
            assert(tv.subrange(pos as int, p as int) =~= seq![tv[pos as int]] + tv.subrange(
                pos + 1,
                p as int,
            ));
            assert(tokens_of(value@) == seq![header(value@)] + entries_tokens(
                models,
                models.len(),
            ));
            assert forall|w: JsonValue| #[trigger]
                reads_as(tokens@, pos as int, w) implies value@ == w@ by {
                assert(w@->Object_0 =~= models);
            }
        }
        return Some((value, p));
    }
    let scalar = if kind == KIND_NULL && number == 0 && blank {
        Some(JsonValue::Null)
    } else if kind == KIND_BOOL && number <= 1 && blank {
        Some(JsonValue::Bool(number == 1))
    } else if kind == KIND_POS_INT && blank {
        Some(JsonValue::Number(JsonNumber::PosInt(number)))
    } else if kind == KIND_NEG_INT && blank {
        Some(JsonValue::Number(JsonNumber::NegInt(signed_of_bits(number))))
    } else if kind == KIND_FLOAT && blank {
        Some(JsonValue::Number(JsonNumber::Float(Float64 { bits: number })))
    } else if kind == KIND_STRING && number == 0 {
        Some(JsonValue::String(tokens[pos].2.clone()))
    } else {
        None
    };
    match scalar {
        Some(value) => {
            proof {
                lemma_tokens_head(value@);
                assert(tv[pos as int].2 =~= header(value@).2);
                assert(tv.subrange(pos as int, pos + 1) =~= seq![header(value@)]);
            }
            Some((value, pos + 1))
        },
        None => None,
    }
}

/// Flattens a value.
pub fn flattened(value: &JsonValue) -> (tokens: Vec<Token>)
    ensures
        tokens_view(tokens@) == tokens_of(value@),
{
    let mut tokens: Vec<Token> = Vec::new();
    flatten(value, &mut tokens);
    assert(tokens_view(tokens@) =~= tokens_of(value@));
    tokens
}

/// Reads the value that a run of tokens holds: the value that flattens to
/// exactly these tokens, if there is one.  A key that the tokens hold twice
/// in one object is read twice.
pub fn unflattened(tokens: &Vec<Token>) -> (r: Option<JsonValue>)
    ensures
        r matches Some(value) ==> tokens_view(tokens@) == tokens_of(value@),
        forall|w: JsonValue|
            tokens_view(tokens@) == tokens_of(#[trigger] w@) ==> (r matches Some(value) && value@
                == w@),
{
    let ghost tv = tokens_view(tokens@);
    match parse_value(tokens, 0) {
        Some((value, next)) => {
            if next == tokens.len() {
                proof {
                    assert(tv.subrange(0, next as int) =~= tv);
                    assert forall|w: JsonValue| tv == tokens_of(#[trigger] w@) implies value@
                        == w@ by {
                        assert(reads_as(tokens@, 0, w));
                    }
                }
                Some(value)
            } else {
                proof {
                    assert forall|w: JsonValue| tv == tokens_of(#[trigger] w@) implies false by {
                        assert(tv.subrange(0, tv.len() as int) =~= tv);
                        assert(reads_as(tokens@, 0, w));
                    }
                }
                None
            }
        },
        None => {
            proof {
                assert forall|w: JsonValue| tv == tokens_of(#[trigger] w@) implies false by {
                    assert(tv.subrange(0, tv.len() as int) =~= tv);
                    assert(reads_as(tokens@, 0, w));
                }
            }
            None
        },
    }
}

/// A state laid out as plain values: the active task, the completion mark
/// and the remote version; the remote name; the eight lists; the variables,
/// flattened.
pub type Frame = ((i32, bool, Option<i64>), Option<String>, Vec<Vec<i32>>, Vec<Token>);

/// What a frame is.
pub struct FrameView {
    pub active: i32,
    pub completed: bool,
    pub remote_version: Option<i64>,
    pub remote_id: Option<Seq<char>>,
    pub lists: Seq<Seq<i32>>,
    pub tokens: Seq<TokenView>,
}

/// Why a state could not be stored or read.
#[derive(Debug, Clone, Copy, PartialEq, Eq, Structural)]
pub enum CodecError {
    /// The value is too heavy to be archived.
    Archive,
    /// The bytes are not the archive of a frame.
    Schema,
    /// The frame holds no state.
    Shape,
}

/// What a frame is.
pub open spec fn frame_view(frame: Frame) -> FrameView {
    FrameView {
        active: frame.0.0,
        completed: frame.0.1,
        remote_version: frame.0.2,
        remote_id: match frame.1 {
            Some(id) => Some(id@),
            None => None,
        },
        lists: Seq::new(frame.2@.len(), |i: int| frame.2@[i]@),
        tokens: tokens_view(frame.3@),
    }
}

/// The frame of a state.
pub open spec fn frame_of(s: StateView) -> FrameView {
    FrameView {
        active: s.active,
        completed: s.completed,
        remote_version: s.remote_version,
        remote_id: s.remote_id,
        lists: seq![
            s.current_tasks,
            s.current_flows,
            s.visited_tasks,
            s.visited_flows,
            s.pending_tasks,
            s.maybe_future_tasks,
            s.maybe_future_flows,
            s.maybe_visited_tasks,
        ],
        tokens: tokens_of(s.variables),
    }
}

/// The frame that the archiver reads out of `bytes`, if it accepts them.
pub uninterp spec fn unarchived(bytes: Seq<u8>) -> Option<FrameView>;

/// An archive is at most this much shorter than the longest run of bytes
/// that memory can hold: the archiver keeps room to align it.
pub const ARCHIVE_MARGIN: usize = 15;

/// So many bytes can be an archive.
pub open spec fn fits_archive(len: nat) -> bool {
    len <= isize::MAX - ARCHIVE_MARGIN
}

/// The frame that `bytes` hold: the one that the archiver reads out of
/// them, unless they are too many to be an archive.
pub open spec fn frame_in(bytes: Seq<u8>) -> Option<FrameView> {
    if fits_archive(bytes.len()) {
        unarchived(bytes)
    } else {
        None
    }
}

/// The bytes hold the state `s`: they hold a frame, and it is the frame of
/// `s`.
pub open spec fn decodes_to(bytes: Seq<u8>, s: StateView) -> bool {
    frame_in(bytes) == Some(frame_of(s))
}

/// The most that a frame may weigh to be archived.
pub const ARCHIVE_LIMIT: usize = 0x4000_0000;

/// What a frame weighs before anything is in it.
pub const BASE_WEIGHT: usize = 256;

/// What a list weighs besides its numbers.
pub const LIST_WEIGHT: usize = 16;

/// What a token weighs besides its text.
pub const TOKEN_WEIGHT: usize = 32;

/// What a text weighs: the bytes of its encoding.
pub open spec fn text_weight(text: Seq<char>) -> nat {
    encode_utf8(text).len()
}

/// What the first `n` tokens weigh.
pub open spec fn tokens_weight(tokens: Seq<TokenView>, n: nat) -> nat
    decreases n,
{
    if n == 0 || n > tokens.len() {
        0
    } else {
        (tokens_weight(tokens, (n - 1) as nat) + TOKEN_WEIGHT + text_weight(tokens[n - 1].2)) as nat
    }
}

/// What a list of numbers weighs: four bytes for each number.
pub open spec fn list_weight(list: Seq<i32>) -> nat {
    (LIST_WEIGHT + 4 * list.len()) as nat
}

/// What the first `n` lists weigh.
pub open spec fn lists_weight(lists: Seq<Seq<i32>>, n: nat) -> nat
    decreases n,
{
    if n == 0 || n > lists.len() {
        0
    } else {
        lists_weight(lists, (n - 1) as nat) + list_weight(lists[n - 1])
    }
}

/// What a frame weighs.  The weight counts every byte that the archive of
/// the frame takes, and more: the numbers of the lists, the bytes of the
/// texts, and for each list, each token and the frame itself more than its
/// fixed part and the padding before it take.
pub open spec fn frame_weight(f: FrameView) -> nat {
    (BASE_WEIGHT + (match f.remote_id {
        Some(id) => text_weight(id),
        None => 0,
    }) + lists_weight(f.lists, f.lists.len()) + tokens_weight(f.tokens, f.tokens.len())) as nat
}

/// The frame is light enough to be archived: its archive stays below
/// `2^31` bytes, so that every length and every distance in it fits the 32
/// bits that the archiver stores them in.
pub open spec fn frame_fits(f: FrameView) -> bool {
    frame_weight(f) <= ARCHIVE_LIMIT
}

/// More tokens weigh more.
pub proof fn lemma_tokens_weight_grows(tokens: Seq<TokenView>, n: nat, m: nat)
    requires
        n <= m <= tokens.len(),
    ensures
        tokens_weight(tokens, n) <= tokens_weight(tokens, m),
    decreases m - n,
{
    if n < m {
        lemma_tokens_weight_grows(tokens, n, (m - 1) as nat);
    }
}

/// More lists weigh more.
pub proof fn lemma_lists_weight_grows(lists: Seq<Seq<i32>>, n: nat, m: nat)
    requires
        n <= m <= lists.len(),
    ensures
        lists_weight(lists, n) <= lists_weight(lists, m),
    decreases m - n,
{
    if n < m {
        lemma_lists_weight_grows(lists, n, (m - 1) as nat);
    }
}

/// Adds to a weight, as long as the limit is kept.
pub fn weigh_more(total: usize, more: usize) -> (r: Option<usize>)
    ensures
        match r {
            Some(w) => w == total + more && w <= ARCHIVE_LIMIT,
            None => total + more > ARCHIVE_LIMIT,
        },
{
    if total > ARCHIVE_LIMIT || more > ARCHIVE_LIMIT - total {
        None
    } else {
        Some(total + more)
    }
}

/// Adds the weight of a text.
pub fn weigh_text(text: &str, total: usize) -> (r: Option<usize>)
    ensures
        match r {
            Some(w) => w == total + text_weight(text@) && w <= ARCHIVE_LIMIT,
            None => total + text_weight(text@) > ARCHIVE_LIMIT,
        },
{
    weigh_more(total, text.as_bytes().len())
}

/// Adds the weight of a list of numbers.
pub fn weigh_list(list: &Vec<i32>, total: usize) -> (r: Option<usize>)
    ensures
        match r {
            Some(w) => w == total + list_weight(list@) && w <= ARCHIVE_LIMIT,
            None => total + list_weight(list@) > ARCHIVE_LIMIT,
        },
{
    if list.len() > ARCHIVE_LIMIT / 4 {
        return None;
    }
    match weigh_more(total, LIST_WEIGHT) {
        Some(w) => weigh_more(w, 4 * list.len()),
        None => None,
    }
}

/// Adds the weight of a run of tokens.
pub fn weigh_tokens(tokens: &Vec<Token>, total: usize) -> (r: Option<usize>)
    ensures
        match r {
            Some(w) => w == total + tokens_weight(tokens_view(tokens@), tokens@.len()) && w
                <= ARCHIVE_LIMIT,
            None => total + tokens_weight(tokens_view(tokens@), tokens@.len()) > ARCHIVE_LIMIT,
        },
{
    let ghost tv = tokens_view(tokens@);
    let mut sum = match weigh_more(total, 0) {
        Some(w) => w,
        None => {
            return None;
        },
    };
    let mut i: usize = 0;
    while i < tokens.len()
        invariant
            tv == tokens_view(tokens@),
            i <= tokens@.len(),
            sum == total + tokens_weight(tv, i as nat),
            sum <= ARCHIVE_LIMIT,
        decreases tokens@.len() - i,
    {
        proof {
            lemma_tokens_weight_grows(tv, (i + 1) as nat, tokens@.len());
            assert(tv[i as int].2 == tokens@[i as int].2@);
        }
        let with_token = match weigh_more(sum, TOKEN_WEIGHT) {
            Some(w) => w,
            None => {
                return None;
            },
        };
        sum = match weigh_text(tokens[i].2.as_str(), with_token) {
            Some(w) => w,
            None => {
                return None;
            },
        };
        i += 1;
    }
    Some(sum)
}

/// Adds the weight of a run of lists.
pub fn weigh_lists(lists: &Vec<Vec<i32>>, total: usize) -> (r: Option<usize>)
    ensures
        match r {
            Some(w) => w == total + lists_weight(
                Seq::new(lists@.len(), |i: int| lists@[i]@),
                lists@.len(),
            ) && w <= ARCHIVE_LIMIT,
            None => total + lists_weight(
                Seq::new(lists@.len(), |i: int| lists@[i]@),
                lists@.len(),
            ) > ARCHIVE_LIMIT,
        },
{
    let ghost lv = Seq::new(lists@.len(), |i: int| lists@[i]@);
    let mut sum = match weigh_more(total, 0) {
        Some(w) => w,
        None => {
            return None;
        },
    };
    let mut i: usize = 0;
    while i < lists.len()
        invariant
            lv == Seq::new(lists@.len(), |i: int| lists@[i]@),
            i <= lists@.len(),
            sum == total + lists_weight(lv, i as nat),
            sum <= ARCHIVE_LIMIT,
        decreases lists@.len() - i,
    {
        proof {
            lemma_lists_weight_grows(lv, (i + 1) as nat, lists@.len());
            assert(lv[i as int] == lists@[i as int]@);
        }
        sum = match weigh_list(&lists[i], sum) {
            Some(w) => w,
            None => {
                return None;
            },
        };
        i += 1;
    }
    Some(sum)
}

/// Weighs a frame, as long as it is light enough to be archived.
pub fn weigh_frame(frame: &Frame) -> (r: Option<usize>)
    ensures
        match r {
            Some(w) => w == frame_weight(frame_view(*frame)) && frame_fits(frame_view(*frame)),
            None => !frame_fits(frame_view(*frame)),
        },
{
    let with_id = match &frame.1 {
        Some(id) => match weigh_text(id.as_str(), BASE_WEIGHT) {
            Some(w) => w,
            None => {
                return None;
            },
        },
        None => BASE_WEIGHT,
    };
    let with_lists = match weigh_lists(&frame.2, with_id) {
        Some(w) => w,
        None => {
            return None;
        },
    };
    weigh_tokens(&frame.3, with_lists)
}

/// Archives a frame with `rkyv::to_bytes`.  For a frame that is light
/// enough the archiver writes: none of its errors can come up for plain
/// values, and every length and distance fits.  The bytes it returns are no
/// more than the frame weighs, and are bytes that `rkyv::from_bytes`
/// accepts and reads back as a frame with the same content.
#[verifier::external_body]
fn archive(frame: &Frame) -> (r: Option<Vec<u8>>)
    requires
        frame_fits(frame_view(*frame)),
    ensures
        match r {
            Some(bytes) => bytes@.len() <= frame_weight(frame_view(*frame)) && unarchived(bytes@)
                == Some(frame_view(*frame)),
            None => false,
        },
{
    match rkyv::to_bytes::<Frame, 256>(frame) {
        Ok(bytes) => Some(bytes.to_vec()),
        Err(_) => None,
    }
}

/// Checks and reads a frame with `rkyv::from_bytes`, on a copy of the bytes
/// in an `rkyv::AlignedVec`, which is aligned as the archiver wants it and
/// takes no more bytes than an archive can be.  What comes back is what the
/// archiver reads out of the bytes.
#[verifier::external_body]
fn unarchive(bytes: &[u8]) -> (r: Option<Frame>)
    requires
        fits_archive(bytes@.len()),
    ensures
        match r {
            Some(frame) => unarchived(bytes@) == Some(frame_view(frame)),
            None => unarchived(bytes@) is None,
        },
{
    let mut aligned = rkyv::AlignedVec::with_capacity(bytes.len());
    aligned.extend_from_slice(bytes);
    match rkyv::from_bytes::<Frame>(&aligned) {
        Ok(frame) => Some(frame),
        Err(_) => None,
    }
}

/// A list with the same numbers.
pub fn copy_list(list: &Vec<i32>) -> (copy: Vec<i32>)
    ensures
        copy@ == list@,
{
    let mut copy: Vec<i32> = Vec::new();
    let mut i: usize = 0;
    while i < list.len()
        invariant
            i <= list@.len(),
            copy@ == list@.take(i as int),
        decreases list@.len() - i,
    {
        copy.push(list[i]);
        assert(copy@ =~= list@.take(i + 1));
        i += 1;
    }
    assert(list@.take(i as int) =~= list@);
    copy
}

/// Lays a state out as a frame.
pub fn frame_from_state(state: &State) -> (frame: Frame)
    ensures
        frame_view(frame) == frame_of(state@),
{
    let mut lists: Vec<Vec<i32>> = Vec::new();
    lists.push(copy_list(&state.current_tasks));
    lists.push(copy_list(&state.current_flows));
    lists.push(copy_list(&state.visited_tasks));
    lists.push(copy_list(&state.visited_flows));
    lists.push(copy_list(&state.pending_tasks));
    lists.push(copy_list(&state.maybe_future_tasks));
    lists.push(copy_list(&state.maybe_future_flows));
    lists.push(copy_list(&state.maybe_visited_tasks));
    let remote_id = match &state.remote_id {
        Some(id) => Some(id.clone()),
        None => None,
    };
    let tokens = flattened(&state.variables);
    let frame: Frame = ((state.active, state.completed, state.remote_version), remote_id, lists, tokens);
    assert(frame_view(frame).lists =~= frame_of(state@).lists);
    frame
}

/// Reads the state that a frame holds.  A frame holds a state where it has
/// eight lists and its tokens are what some value flattens to.
pub fn state_from_frame(frame: Frame) -> (r: Result<State, CodecError>)
    ensures
        match r {
            Ok(state) => frame_view(frame) == frame_of(state@),
            Err(e) => e == CodecError::Shape && forall|s: State|
                frame_view(frame) != frame_of(#[trigger] s@),
        },
        forall|s: State|
            frame_view(frame) == frame_of(#[trigger] s@) ==> (r matches Ok(state) && state@ == s@),
{
    let ghost view = frame_view(frame);
    let (scalars, remote_id, lists, tokens) = frame;
    let (active, completed, remote_version) = scalars;
    let mut lists = lists;
    if lists.len() != 8 {
        proof {
            assert forall|s: State| view != frame_of(#[trigger] s@) by {
                assert(frame_of(s@).lists.len() == 8);
            }
        }
        return Err(CodecError::Shape);
    }
    let variables = match unflattened(&tokens) {
        Some(value) => value,
        None => {
            proof {
                assert forall|s: State| view != frame_of(#[trigger] s@) by {
                    assert(s@.variables == s.variables@);
                }
            }
            return Err(CodecError::Shape);
        },
    };
    let maybe_visited_tasks = lists.pop().unwrap();
    let maybe_future_flows = lists.pop().unwrap();
    let maybe_future_tasks = lists.pop().unwrap();
    let pending_tasks = lists.pop().unwrap();
    let visited_flows = lists.pop().unwrap();
    let visited_tasks = lists.pop().unwrap();
    let current_flows = lists.pop().unwrap();
    let current_tasks = lists.pop().unwrap();
    let state = State {
        active,
        current_tasks,
        current_flows,
        visited_tasks,
        visited_flows,
        pending_tasks,
        maybe_future_tasks,
        maybe_future_flows,
        maybe_visited_tasks,
        variables,
        completed,
        remote_id,
        remote_version,
    };
    proof {
        assert(view.lists =~= frame_of(state@).lists);
        assert forall|s: State| view == frame_of(#[trigger] s@) implies state@ == s@ by {
            let la = frame_of(state@).lists;
            let lb = frame_of(s@).lists;
            assert(la[0] == lb[0]);
            assert(la[1] == lb[1]);
            assert(la[2] == lb[2]);
            assert(la[3] == lb[3]);
            assert(la[4] == lb[4]);
            assert(la[5] == lb[5]);
            assert(la[6] == lb[6]);
            assert(la[7] == lb[7]);
            assert(s@.variables == s.variables@);
        }
    }
    Ok(state)
}

/// The state is light enough to be stored.
pub open spec fn state_fits(s: StateView) -> bool {
    frame_fits(frame_of(s))
}

/// Stores a state as bytes.  The bytes hold the state, so that reading them
/// gives the state back, and are no more than its frame weighs.  A state
/// too heavy to be archived is refused.
pub fn encode(state: &State) -> (r: Result<Vec<u8>, CodecError>)
    ensures
        match r {
            Ok(bytes) => state_fits(state@) && decodes_to(bytes@, state@) && bytes@.len()
                <= frame_weight(frame_of(state@)),
            Err(e) => e == CodecError::Archive && !state_fits(state@),
        },
{
    let frame = frame_from_state(state);
    match weigh_frame(&frame) {
        Some(_) => match archive(&frame) {
            Some(bytes) => Ok(bytes),
            None => Err(CodecError::Archive),
        },
        None => Err(CodecError::Archive),
    }
}

/// Reads a state from bytes.  Bytes that hold a state give that state; bytes
/// that are no archive of a frame are refused for their schema, and a frame
/// that holds no state for its shape.  The variables are read as the bytes
/// hold them: a key that stands twice in one object of the bytes stands
/// twice in the state, as it would in a state that was stored with it.
pub fn decode(bytes: &[u8]) -> (r: Result<State, CodecError>)
    ensures
        match r {
            Ok(state) => decodes_to(bytes@, state@),
            Err(e) => e == (if frame_in(bytes@) is None {
                CodecError::Schema
            } else {
                CodecError::Shape
            }) && forall|s: State| !decodes_to(bytes@, #[trigger] s@),
        },
        forall|s: State| decodes_to(bytes@, #[trigger] s@) ==> (r matches Ok(state) && state@ == s@),
{
    if bytes.len() > isize::MAX as usize - ARCHIVE_MARGIN {
        return Err(CodecError::Schema);
    }
    match unarchive(bytes) {
        Some(frame) => {
            state_from_frame(frame)
        },
        None => Err(CodecError::Schema),
    }
}

/// Stores a state and reads it back: what comes back is the state.  A
/// state too heavy to be archived is refused.
pub fn stored_and_read(state: &State) -> (r: Result<State, CodecError>)
    ensures
        match r {
            Ok(read) => state_fits(state@) && read@ == state@,
            Err(e) => e == CodecError::Archive && !state_fits(state@),
        },
{
    match encode(state) {
        Ok(bytes) => {
            let r = decode(bytes.as_slice());
            assert(decodes_to(bytes@, state@));
            r
        },
        Err(e) => Err(e),
    }
}

} // verus!
