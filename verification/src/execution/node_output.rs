//! What a node produced.

use vstd::prelude::*;

verus! {

/// The key under which a node's payload names its route.
pub const ROUTE_KEY: &'static str = "__route__";

/// The output of a node: its payload, or its error, and its route: the
/// labels it selects, when it names any.
pub struct NodeOutput<P> {
    pub payload: Result<P, String>,
    pub route: Option<Vec<String>>,
}

/// The strings among the items of a node's route field, in order.
pub open spec fn route_strings(items: Seq<Option<String>>) -> Seq<Seq<char>>
    decreases items.len(),
{
    if items.len() == 0 {
        Seq::empty()
    } else {
        route_strings(items.drop_last()) + match items.last() {
            Some(s) => seq![s@],
            None => Seq::empty(),
        }
    }
}

/// The text of each string.
pub open spec fn string_views(v: Seq<String>) -> Seq<Seq<char>> {
    v.map_values(|s: String| s@)
}

/// The labels of a route.
pub open spec fn route_labels(route: Option<Vec<String>>) -> Option<Seq<Seq<char>>> {
    match route {
        Some(v) => Some(string_views(v@)),
        None => None,
    }
}

impl<P> NodeOutput<P> {
    /// The route, as a sequence of labels.
    pub open spec fn route_view(&self) -> Option<Seq<Seq<char>>> {
        route_labels(self.route)
    }

    /// The output of a run. `route_field` holds the items of the payload's
    /// route array (`None` for an item that is not a string), or is `None` when
    /// the payload has no such array. A failed run has no route.
    pub fn from_result(payload: Result<P, String>, route_field: Option<Vec<Option<String>>>) -> (o:
        Self)
        ensures
            o.payload == payload,
            o.route_view() == match (payload, route_field) {
                (Ok(_), Some(items)) => Some(route_strings(items@)),
                _ => None,
            },
    {
        let route = match (&payload, route_field) {
            (Ok(_), Some(items)) => {
                let mut labels: Vec<String> = Vec::new();
                let ghost gitems = items@;
                for item in it: items
                    invariant
                        it.seq() == gitems,
                        string_views(labels@) == route_strings(it.seq().take(it.index() as int)),
                {
                    proof {
                        assert(it.seq().take(it.index() + 1).drop_last() =~= it.seq().take(it.index() as int));
                    }
                    let ghost before = labels@;
                    match item {
                        Some(s) => {
                            labels.push(s);
                        },
                        None => {},
                    }
                    proof {
                        assert(string_views(labels@) =~= route_strings(it.seq().take(it.index() + 1)));
                    }
                }
                proof {
                    assert(gitems.take(gitems.len() as int) =~= gitems);
                }
                Some(labels)
            },
            _ => None,
        };
        NodeOutput { payload, route }
    }
}

} // verus!
