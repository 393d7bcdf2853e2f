//! The JSON object that a node receives as its input: its predecessors'
//! outputs, keyed by their names.

use vstd::prelude::*;
use serde_json::Value;
use crate::execution::node_output::{route_strings, NodeOutput, ROUTE_KEY};
use crate::execution::node_status::NodeStatus;
use crate::workflow::workflow::Workflow;
use crate::execution::context::{
    edge_failed, entry_views, has_failed_input, input_entries, lemma_in_edges, lemma_input_entries,
    was_dispatched, ExecutionContext,
};

verus! {

#[verifier::external_type_specification]
#[verifier::external_body]
pub struct ExJsonValue(Value);

#[verifier::external_type_specification]
#[verifier::external_body]
#[verifier::reject_recursive_types(K)]
#[verifier::reject_recursive_types(V)]
pub struct ExJsonObject<K, V>(serde_json::Map<K, V>);

/// What a JSON object holds: each key with its value.
pub uninterp spec fn object_entries(m: serde_json::Map<String, Value>) -> Map<Seq<char>, Value>;

/// What `Value::get` finds under `key`: for an object, its value there.
pub uninterp spec fn json_field(v: Value, key: Seq<char>) -> Option<Value>;

/// What `Value::as_array` gives: the items of an array.
pub uninterp spec fn json_array(v: Value) -> Option<Seq<Value>>;

/// What `Value::as_str` gives: the text of a string.
pub uninterp spec fn json_text(v: Value) -> Option<Seq<char>>;

/// The value under `k`, if the entries have one.
pub open spec fn entry_of(m: Map<Seq<char>, Value>, k: Seq<char>) -> Option<Value> {
    if m.dom().contains(k) {
        Some(m[k])
    } else {
        None
    }
}

/// `x` is the JSON string with text `s`: no array, no fields.
pub open spec fn is_json_string(x: Value, s: Seq<char>) -> bool {
    &&& json_text(x) == Some(s)
    &&& json_array(x) is None
    &&& forall|k: Seq<char>| #[trigger] json_field(x, k) is None
}

/// `x` is the JSON object with the entries `m`: no text, no array, and
/// under each key the entry there.
pub open spec fn is_json_object(x: Value, m: Map<Seq<char>, Value>) -> bool {
    &&& json_text(x) is None
    &&& json_array(x) is None
    &&& forall|k: Seq<char>| #[trigger] json_field(x, k) == entry_of(m, k)
}

/// `x` is the object `{"error": s}`.
pub open spec fn is_error_object(x: Value, s: Seq<char>) -> bool {
    &&& json_text(x) is None
    &&& json_array(x) is None
    &&& forall|k: Seq<char>| k != "error"@ ==> #[trigger] json_field(x, k) is None
    &&& json_field(x, "error"@) matches Some(e) && is_json_string(e, s)
}

/// Calls `serde_json::Map::new`, which makes an object with no entries.
#[verifier::external_body]
fn new_object() -> (m: serde_json::Map<String, Value>)
    ensures
        object_entries(m) =~= Map::empty(),
{
    serde_json::Map::new()
}

/// Calls `serde_json::Map::insert`, which puts `value` under `key` (in place
/// of what was there, if anything) and leaves the other entries.
#[verifier::external_body]
fn insert_field(m: &mut serde_json::Map<String, Value>, key: String, value: Value)
    ensures
        object_entries(*final(m)) == object_entries(*old(m)).insert(key@, value),
{
    m.insert(key, value);
}

/// Calls `Value::clone`, which copies the value.
#[verifier::external_body]
fn copy_value(v: &Value) -> (r: Value)
    ensures
        r == *v,
{
    v.clone()
}

/// Makes the JSON string `Value::String(s)`, which `as_str` reads back as `s`
/// and which has no array and no fields.
#[verifier::external_body]
fn string_value(s: String) -> (r: Value)
    ensures
        is_json_string(r, s@),
{
    Value::String(s)
}

/// Makes the JSON object `Value::Object(m)`, whose fields (read by
/// `Value::get`) are the entries of `m`, and which is no string and no array.
#[verifier::external_body]
fn object_value(m: serde_json::Map<String, Value>) -> (r: Value)
    ensures
        is_json_object(r, object_entries(m)),
{
    Value::Object(m)
}

/// Calls `Value::get`: the field `key` of an object.
#[verifier::external_body]
fn json_get<'a>(v: &'a Value, key: &str) -> (r: Option<&'a Value>)
    ensures
        r is None <==> json_field(*v, key@) is None,
        r matches Some(x) ==> json_field(*v, key@) == Some(*x),
{
    v.get(key)
}

/// Calls `Value::as_array`: the items of an array.
#[verifier::external_body]
fn json_as_array(v: &Value) -> (r: Option<&Vec<Value>>)
    ensures
        r is None <==> json_array(*v) is None,
        r matches Some(a) ==> json_array(*v) == Some(a@),
{
    v.as_array()
}

/// Calls `Value::as_str`: the text of a string.
#[verifier::external_body]
fn json_as_str(v: &Value) -> (r: Option<&str>)
    ensures
        r is None <==> json_text(*v) is None,
        r matches Some(t) ==> json_text(*v) == Some(t@),
{
    v.as_str()
}

/// The texts of the items that are strings, in order.
pub open spec fn present_texts(t: Seq<Option<Seq<char>>>) -> Seq<Seq<char>>
    decreases t.len(),
{
    if t.len() == 0 {
        Seq::empty()
    } else {
        present_texts(t.drop_last()) + match t.last() {
            Some(x) => seq![x],
            None => Seq::empty(),
        }
    }
}

/// The text of each item of an array (`None` for an item that is no string).
pub open spec fn item_texts(items: Seq<Value>) -> Seq<Option<Seq<char>>> {
    items.map_values(|x: Value| json_text(x))
}

/// The route a payload names: the strings among the items of its route
/// array, in order; none when it has no route array.
pub open spec fn payload_route(v: Value) -> Option<Seq<Seq<char>>> {
    match json_field(v, ROUTE_KEY@) {
        Some(r) => match json_array(r) {
            Some(items) => Some(present_texts(item_texts(items))),
            None => None,
        },
        None => None,
    }
}

/// `f` picks, in increasing order, the positions of the items that are
/// strings, one per label, and each label is the text of the item it picks.
pub open spec fn picks_strings(f: Seq<int>, labels: Seq<Seq<char>>, items: Seq<Value>) -> bool {
    &&& f.len() == labels.len()
    &&& forall|j: int|
        0 <= j < f.len() ==> 0 <= #[trigger] f[j] < items.len() && json_text(items[f[j]]) == Some(labels[j])
    &&& forall|a: int, b: int| 0 <= a < b < f.len() ==> f[a] < f[b]
    &&& forall|i: int| 0 <= i < items.len() && (#[trigger] json_text(items[i])) is Some ==> f.contains(i)
}

/// `labels` are the texts of the string items of `items`, all of them, in
/// their order, and nothing else.
pub open spec fn strings_in_order(labels: Seq<Seq<char>>, items: Seq<Value>) -> bool {
    exists|f: Seq<int>| picks_strings(f, labels, items)
}

/// The texts that `present_texts` keeps are the string items, in order.
proof fn lemma_present_texts_picks(items: Seq<Value>) -> (f: Seq<int>)
    ensures
        picks_strings(f, present_texts(item_texts(items)), items),
    decreases items.len(),
{
    if items.len() == 0 {
        Seq::empty()
    } else {
        let init = items.drop_last();
        let g = lemma_present_texts_picks(init);
        assert(item_texts(items).drop_last() =~= item_texts(init));
        let last = items.len() - 1;
        assert(item_texts(items).last() == json_text(items[last]));
        let p0 = present_texts(item_texts(init));
        let f = if json_text(items[last]) is Some {
            g.push(last)
        } else {
            g
        };
        let labels = present_texts(item_texts(items));
        assert forall|j: int| 0 <= j < f.len() implies 0 <= #[trigger] f[j] < items.len() && json_text(items[f[j]]) == Some(labels[j]) by {
            if j < g.len() {
                assert(f[j] == g[j]);
                assert(labels[j] == p0[j]);
                assert(items[g[j]] == init[g[j]]);
            }
        }
        assert forall|i: int| 0 <= i < items.len() && (#[trigger] json_text(items[i])) is Some implies f.contains(i) by {
            if i < last {
                assert(items[i] == init[i]);
                assert(json_text(init[i]) is Some);
                let j = choose|j: int| 0 <= j < g.len() && g[j] == i;
                assert(f[j] == i);
            } else {
                assert(f[f.len() - 1] == i);
            }
        }
        f
    }
}

/// A payload whose route field is an array names a route, whatever the
/// array's length: exactly the string items, in order (an array without
/// strings names the empty route, which selects no label). A payload
/// without a route field, or whose route field is no array, names none.
pub proof fn law_route_array_is_read_whole(v: Value)
    ensures
        match json_field(v, ROUTE_KEY@) {
            Some(r) => match json_array(r) {
                Some(items) => payload_route(v) matches Some(labels) && strings_in_order(labels, items),
                None => payload_route(v) is None,
            },
            None => payload_route(v) is None,
        },
{
    if let Some(r) = json_field(v, ROUTE_KEY@) {
        if let Some(items) = json_array(r) {
            let f = lemma_present_texts_picks(items);
            assert(picks_strings(f, present_texts(item_texts(items)), items));
        }
    }
}

/// The text of each item, as it was read from a route array: `None` for an
/// item that is not a string.
pub open spec fn texts_view(texts: Seq<Option<&str>>) -> Seq<Option<Seq<char>>> {
    texts.map_values(|t: Option<&str>| match t {
        Some(s) => Some(s@),
        None => None,
    })
}

/// The text of each owned item.
pub open spec fn items_view(items: Seq<Option<String>>) -> Seq<Option<Seq<char>>> {
    items.map_values(|t: Option<String>| match t {
        Some(s) => Some(s@),
        None => None,
    })
}

/// The route items read from a route array: the same items in the same
/// order, each string's text copied, each other item `None`.
fn route_from_texts(texts: &Vec<Option<&str>>) -> (r: Vec<Option<String>>)
    ensures
        items_view(r@) == texts_view(texts@),
{
    let mut out: Vec<Option<String>> = Vec::new();
    let mut i: usize = 0;
    while i < texts.len()
        invariant
            i <= texts@.len(),
            items_view(out@) == texts_view(texts@).take(i as int),
        decreases texts@.len() - i,
    {
        let item: Option<String> = match texts[i] {
            Some(s) => Some(s.to_owned()),
            None => None,
        };
        let ghost before = out@;
        out.push(item);
        proof {
            assert(items_view(out@) =~= items_view(before).push(texts_view(texts@)[i as int]));
            assert(texts_view(texts@).take(i + 1) =~= texts_view(texts@).take(i as int).push(
                texts_view(texts@)[i as int],
            ));
        }
        i += 1;
    }
    proof {
        assert(texts_view(texts@).take(texts@.len() as int) =~= texts_view(texts@));
    }
    out
}

/// The strings among some route items are the texts of the items that are
/// strings.
proof fn lemma_route_strings(items: Seq<Option<String>>)
    ensures
        route_strings(items) == present_texts(items_view(items)),
    decreases items.len(),
{
    if items.len() > 0 {
        lemma_route_strings(items.drop_last());
        assert(items_view(items.drop_last()) =~= items_view(items).drop_last());
    }
}

/// The items of the route array of a payload, each one's text when it is a
/// string; `None` when the payload has no route array.
fn route_field(payload: &Value) -> (r: Option<Vec<Option<String>>>)
    ensures
        r is None ==> payload_route(*payload) is None,
        r matches Some(x) ==> payload_route(*payload) == Some(present_texts(items_view(x@))),
{
    match json_get(payload, ROUTE_KEY) {
        Some(r) => match json_as_array(r) {
            Some(items) => {
                let mut texts: Vec<Option<&str>> = Vec::new();
                let mut i: usize = 0;
                while i < items.len()
                    invariant
                        i <= items@.len(),
                        texts@.len() == i,
                        forall|j: int| 0 <= j < i ==> #[trigger] texts_view(texts@)[j] == json_text(items@[j]),
                    decreases items@.len() - i,
                {
                    let t = json_as_str(&items[i]);
                    let ghost before = texts@;
                    texts.push(t);
                    proof {
                        assert forall|j: int| 0 <= j < i + 1 implies #[trigger] texts_view(texts@)[j] == json_text(items@[j]) by {
                            if j < i {
                                assert(texts@[j] == before[j]);
                                assert(texts_view(before)[j] == json_text(items@[j]));
                            }
                        }
                    }
                    i += 1;
                }
                let out = route_from_texts(&texts);
                proof {
                    assert(texts_view(texts@) =~= item_texts(items@));
                }
                Some(out)
            },
            None => None,
        },
        None => None,
    }
}

/// The output of a run that gave `payload`: a successful payload's route is
/// the one it names in its route array; a failed run has no route.
pub fn output_from_result(payload: Result<Value, String>) -> (o: NodeOutput<Value>)
    ensures
        o.payload == payload,
        payload matches Ok(v) ==> o.route_view() == payload_route(v),
        payload is Err ==> o.route is None,
        payload matches Ok(v) ==> match json_field(v, ROUTE_KEY@) {
            Some(r) => match json_array(r) {
                Some(items) => o.route is Some && strings_in_order(o.route_view()->0, items),
                None => o.route is None,
            },
            None => o.route is None,
        },
{
    let field = match &payload {
        Ok(v) => route_field(v),
        Err(_) => None,
    };
    proof {
        if field is Some {
            lemma_route_strings(field->0@);
        }
        if payload is Ok {
            let v = payload->Ok_0;
            if let Some(r) = json_field(v, ROUTE_KEY@) {
                if let Some(items) = json_array(r) {
                    let f = lemma_present_texts_picks(items);
                    assert(picks_strings(f, present_texts(item_texts(items)), items));
                }
            }
        }
    }
    NodeOutput::from_result(payload, field)
}

/// The names of some inputs.
pub open spec fn names_of(es: Seq<(Seq<char>, usize)>) -> Set<Seq<char>>
    decreases es.len(),
{
    if es.len() == 0 {
        Set::empty()
    } else {
        names_of(es.drop_last()).insert(es.last().0)
    }
}

/// The position of the last input named `name`.
pub open spec fn last_source(es: Seq<(Seq<char>, usize)>, name: Seq<char>) -> usize
    decreases es.len(),
{
    if es.len() == 0 {
        0
    } else if es.last().0 == name {
        es.last().1
    } else {
        last_source(es.drop_last(), name)
    }
}

/// `x` is what a node is handed for a predecessor with output `o`: its
/// payload, or `{"error": e}` for its error `e`.
pub open spec fn input_value(o: Option<NodeOutput<Value>>, x: Value) -> bool {
    match o {
        Some(out) => match out.payload {
            Ok(p) => x == p,
            Err(e) => is_error_object(x, e@),
        },
        None => false,
    }
}

/// `obj` is the input object for the inputs `es`: one key per name, holding
/// what is handed for the last input of that name.
pub open spec fn input_object_holds(
    obj: Map<Seq<char>, Value>,
    outs: Seq<Option<NodeOutput<Value>>>,
    es: Seq<(Seq<char>, usize)>,
) -> bool {
    &&& obj.dom() == names_of(es)
    &&& forall|k: Seq<char>|
        #[trigger] obj.dom().contains(k) ==> input_value(outs[last_source(es, k) as int], obj[k])
}

/// What node `v` is handed, said over its incoming edges: the name of every
/// predecessor with an output is a key, and every key holds what is handed
/// for a predecessor with that name.
pub open spec fn hands_inputs<F>(
    w: Workflow<F>,
    outs: Seq<Option<NodeOutput<Value>>>,
    v: int,
    obj: Map<Seq<char>, Value>,
) -> bool {
    &&& forall|k: int|
        0 <= k < w.in_edges()[v].len() ==> match w.src()[#[trigger] w.in_edges()[v][k] as int] {
            Some(u) => outs[u as int] is Some ==> obj.dom().contains(w.node_seq()[u as int].name@),
            None => true,
        }
    &&& forall|key: Seq<char>|
        #[trigger] obj.dom().contains(key) ==> exists|k: int|
            0 <= k < w.in_edges()[v].len() && match w.src()[#[trigger] w.in_edges()[v][k] as int] {
                Some(u) => w.node_seq()[u as int].name@ == key && input_value(outs[u as int], obj[key]),
                None => false,
            }
}

/// A name is among the names of some inputs exactly when an input has it,
/// and then the last input with it is one of them.
proof fn lemma_names_of(es: Seq<(Seq<char>, usize)>, x: Seq<char>)
    ensures
        names_of(es).contains(x) <==> exists|i: int| 0 <= i < es.len() && #[trigger] es[i].0 == x,
        names_of(es).contains(x) ==> exists|i: int|
            0 <= i < es.len() && #[trigger] es[i] == (x, last_source(es, x)),
    decreases es.len(),
{
    if es.len() > 0 {
        let init = es.drop_last();
        lemma_names_of(init, x);
        let last = es.len() - 1;
        assert(es[last] == es.last());
        if exists|i: int| 0 <= i < init.len() && #[trigger] init[i].0 == x {
            let i = choose|i: int| 0 <= i < init.len() && #[trigger] init[i].0 == x;
            assert(es[i] == init[i]);
        }
        if exists|i: int| 0 <= i < es.len() && #[trigger] es[i].0 == x {
            let i = choose|i: int| 0 <= i < es.len() && #[trigger] es[i].0 == x;
            if i < last {
                assert(init[i] == es[i]);
            }
        }
        if names_of(init).contains(x) && es.last().0 != x {
            let i = choose|i: int| 0 <= i < init.len() && #[trigger] init[i] == (x, last_source(init, x));
            assert(es[i] == init[i]);
        }
    }
}

/// The input object described by its inputs is the one handed over the
/// node's incoming edges.
proof fn lemma_hands_inputs<F>(
    w: Workflow<F>,
    outs: Seq<Option<NodeOutput<Value>>>,
    v: int,
    obj: Map<Seq<char>, Value>,
)
    requires
        w.wf(),
        0 <= v < w.node_seq().len(),
        outs.len() == w.node_seq().len(),
        input_object_holds(obj, outs, input_entries(w, outs, w.in_edges()[v])),
    ensures
        hands_inputs(w, outs, v, obj),
{
    let ins = w.in_edges()[v];
    let es = input_entries(w, outs, ins);
    lemma_in_edges(w, v);
    lemma_input_entries(w, outs, ins);
    assert forall|k: int| 0 <= k < ins.len() implies match w.src()[#[trigger] ins[k] as int] {
        Some(u) => outs[u as int] is Some ==> obj.dom().contains(w.node_seq()[u as int].name@),
        None => true,
    } by {
        if let Some(u) = w.src()[ins[k] as int] {
            if outs[u as int] is Some {
                let x = w.node_seq()[u as int].name@;
                assert(es.contains((x, u)));
                let i = choose|i: int| 0 <= i < es.len() && es[i] == (x, u);
                assert(es[i].0 == x);
                lemma_names_of(es, x);
            }
        }
    }
    assert forall|key: Seq<char>| #[trigger] obj.dom().contains(key) implies exists|k: int|
        0 <= k < ins.len() && match w.src()[#[trigger] ins[k] as int] {
            Some(u) => w.node_seq()[u as int].name@ == key && input_value(outs[u as int], obj[key]),
            None => false,
        } by {
        lemma_names_of(es, key);
        let u = last_source(es, key);
        let i = choose|i: int| 0 <= i < es.len() && #[trigger] es[i] == (key, u);
        assert(es[i] == (key, u));
        let k = choose|k: int| 0 <= k < ins.len() && w.src()[#[trigger] ins[k] as int] == Some(u);
        assert(w.src()[ins[k] as int] == Some(u));
    }
}

/// The object `{"error": message}`, which stands for the output of a failed node.
pub fn error_object(message: String) -> (m: serde_json::Map<String, Value>)
    ensures
        object_entries(m).dom() == set!["error"@],
        is_json_string(object_entries(m)["error"@], message@),
{
    let mut m = new_object();
    insert_field(&mut m, "error".to_owned(), string_value(message));
    proof {
        assert(Map::<Seq<char>, Value>::empty().insert("error"@, object_entries(m)["error"@]).dom() =~= set!["error"@]);
    }
    m
}

/// The input object of node `v`: for each of its inputs (see
/// `make_input_context`), the predecessor's name mapped to its payload, or
/// to an error object when it failed; of two inputs with one name, the later
/// one counts. Empty before the run begins or for a position past the last
/// node.
pub fn input_object<F>(ctx: &ExecutionContext<F, Value>, v: usize) -> (m: serde_json::Map<String, Value>)
    requires
        ctx.inv(),
    ensures
        ctx.started() && v < ctx.wf_view().node_seq().len() ==> input_object_holds(
            object_entries(m),
            ctx.outputs(),
            input_entries(ctx.wf_view(), ctx.outputs(), ctx.wf_view().in_edges()[v as int]),
        ),
        ctx.started() && v < ctx.wf_view().node_seq().len() ==> hands_inputs(
            ctx.wf_view(),
            ctx.outputs(),
            v as int,
            object_entries(m),
        ),
        !(ctx.started() && v < ctx.wf_view().node_seq().len()) ==> object_entries(m)
            == Map::<Seq<char>, Value>::empty(),
{
    if !ctx.is_started() || v >= ctx.workflow().node_count() {
        return new_object();
    }
    let entries = ctx.make_input_context(v);
    let ghost ev = entry_views(entries@);
    let ghost outs = ctx.outputs();
    proof {
        lemma_in_edges(ctx.wf_view(), v as int);
        lemma_input_entries(ctx.wf_view(), outs, ctx.wf_view().in_edges()[v as int]);
        assert(ev.take(0) =~= Seq::<(Seq<char>, usize)>::empty());
        assert(Map::<Seq<char>, Value>::empty().dom() =~= Set::<Seq<char>>::empty());
    }
    let mut m = new_object();
    let mut i: usize = 0;
    while i < entries.len()
        invariant
            ctx.inv(),
            ctx.started() && v < ctx.wf_view().node_seq().len(),
            outs == ctx.outputs(),
            ev == entry_views(entries@),
            ev == input_entries(ctx.wf_view(), outs, ctx.wf_view().in_edges()[v as int]),
            forall|j: int|
                0 <= j < ev.len() ==> #[trigger] ev[j].1 < outs.len() && outs[ev[j].1 as int] is Some,
            i <= entries@.len(),
            input_object_holds(object_entries(m), outs, ev.take(i as int)),
        decreases entries@.len() - i,
    {
        let ghost pre = ev.take(i as int);
        let ghost post = ev.take(i + 1);
        proof {
            assert(post.drop_last() =~= pre);
            assert(post.last() == ev[i as int]);
            assert(ev[i as int] == (entries@[i as int].name@, entries@[i as int].source));
        }
        let entry = &entries[i];
        let ghost before = object_entries(m);
        proof {
            assert(ev[i as int].1 == entry.source);
            assert(outs[entry.source as int] is Some);
        }
        let ghost mut x: Value = before[entry.name@];
        match ctx.node_output(entry.source) {
            Some(o) => match &o.payload {
                Ok(p) => {
                    let c = copy_value(p);
                    proof {
                        x = c;
                    }
                    insert_field(&mut m, entry.name.clone(), c);
                },
                Err(er) => {
                    let eo = error_object(er.clone());
                    let c = object_value(eo);
                    proof {
                        x = c;
                        let e = object_entries(eo)["error"@];
                        assert forall|k: Seq<char>| k != "error"@ implies #[trigger] json_field(c, k) is None by {
                            assert(json_field(c, k) == entry_of(object_entries(eo), k));
                        }
                        assert(json_field(c, "error"@) == entry_of(object_entries(eo), "error"@));
                    }
                    insert_field(&mut m, entry.name.clone(), c);
                },
            },
            None => {},
        }
        proof {
            assert(input_value(outs[entry.source as int], x));
            assert(object_entries(m) == before.insert(entry.name@, x));
            assert(object_entries(m).dom() =~= names_of(post));
            assert forall|k: Seq<char>| #[trigger] object_entries(m).dom().contains(k) implies input_value(
                outs[last_source(post, k) as int],
                object_entries(m)[k],
            ) by {
                if k != entry.name@ {
                    assert(before.dom().contains(k));
                }
            }
        }
        i += 1;
    }
    proof {
        assert(ev.take(ev.len() as int) =~= ev);
        lemma_hands_inputs(ctx.wf_view(), outs, v as int, object_entries(m));
    }
    m
}

/// The input object of a node that has been handed out: its keys are
/// exactly the names of its predecessors that succeeded, and each key holds
/// the payload of a predecessor with that name that succeeded.
pub proof fn law_handed_out_node_gets_successful_payloads<F>(
    ctx: ExecutionContext<F, Value>,
    v: int,
    obj: Map<Seq<char>, Value>,
)
    requires
        ctx.inv(),
        ctx.started(),
        0 <= v < ctx.wf_view().node_seq().len(),
        was_dispatched(ctx.status()[v]),
        hands_inputs(ctx.wf_view(), ctx.outputs(), v, obj),
    ensures
        forall|k: int|
            0 <= k < ctx.wf_view().in_edges()[v].len() ==> match ctx.wf_view().src()[#[trigger] ctx.wf_view().in_edges()[v][k] as int] {
                Some(u) => ctx.status()[u as int] == NodeStatus::Success ==> obj.dom().contains(
                    ctx.wf_view().node_seq()[u as int].name@,
                ),
                None => true,
            },
        forall|key: Seq<char>|
            #[trigger] obj.dom().contains(key) ==> exists|k: int|
                0 <= k < ctx.wf_view().in_edges()[v].len() && match ctx.wf_view().src()[#[trigger] ctx.wf_view().in_edges()[v][k] as int] {
                    Some(u) => {
                        &&& ctx.wf_view().node_seq()[u as int].name@ == key
                        &&& ctx.status()[u as int] == NodeStatus::Success
                        &&& ctx.outputs()[u as int] matches Some(o)
                        &&& o.payload == Ok::<Value, String>(obj[key])
                    },
                    None => false,
                },
{
    let w = ctx.wf_view();
    let st = ctx.status();
    let outs = ctx.outputs();
    let ins = w.in_edges()[v];
    lemma_in_edges(w, v);
    assert forall|k: int| 0 <= k < ins.len() implies match w.src()[#[trigger] ins[k] as int] {
        Some(u) => st[u as int] == NodeStatus::Success ==> obj.dom().contains(w.node_seq()[u as int].name@),
        None => true,
    } by {
        if let Some(u) = w.src()[ins[k] as int] {
            if st[u as int] == NodeStatus::Success {
                assert(outs[u as int] is Some);
            }
        }
    }
    assert forall|key: Seq<char>| #[trigger] obj.dom().contains(key) implies exists|k: int|
        0 <= k < ins.len() && match w.src()[#[trigger] ins[k] as int] {
            Some(u) => {
                &&& w.node_seq()[u as int].name@ == key
                &&& st[u as int] == NodeStatus::Success
                &&& outs[u as int] matches Some(o)
                &&& o.payload == Ok::<Value, String>(obj[key])
            },
            None => false,
        } by {
        let k = choose|k: int|
            0 <= k < ins.len() && match w.src()[#[trigger] ins[k] as int] {
                Some(u) => w.node_seq()[u as int].name@ == key && input_value(outs[u as int], obj[key]),
                None => false,
            };
        let u = w.src()[ins[k] as int]->0;
        if st[u as int] != NodeStatus::Success {
            assert(st[u as int] == NodeStatus::Failed);
            assert(edge_failed(w, st, ins[k]));
            assert(has_failed_input(w, st, v));
        }
        assert(w.src()[ins[k] as int] == Some(u));
    }
}

} // verus!
