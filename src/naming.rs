//! The naming procedure's first checks: it names only acyclic molecules
//! that contain carbon, and the naming rules themselves are not written yet.

use vstd::prelude::*;
use crate::connectivity::{component, find_connex, has_cycle};
use crate::graph::{GraphError, Id, NodeView, UiBlock, graph_of, has_id, position_of, well_formed};
use crate::radical::has_carbon;

verus! {

/// The message for a molecule with a ring.
pub open spec fn cycle_message() -> Seq<char> {
    "ERR: La molecula conté un cicle :c"@
}

/// The message for a molecule without carbon.
pub open spec fn carbon_message() -> Seq<char> {
    "ERR: La molecula (sota el cursor) ha de contindre carboni"@
}

/// The message for a molecule that passes both checks.
pub open spec fn pending_message() -> Seq<char> {
    "Encara noooo"@
}

/// Whether some node of `s` contains carbon.
pub open spec fn any_carbon(s: Seq<NodeView>) -> bool {
    exists|k: int| 0 <= k < s.len() && has_carbon(#[trigger] s[k].radical)
}

/// What naming the molecule of node `a` of `g` yields.
pub open spec fn naming_outcome(g: Seq<NodeView>, a: Id) -> Seq<char> {
    if has_cycle(g, a) {
        cycle_message()
    } else if !any_carbon(component(g, a)) {
        carbon_message()
    } else {
        pending_message()
    }
}

/// Names the molecule that `source` belongs to, or says why it cannot.
pub fn anomena(input: &[UiBlock], source: &UiBlock) -> (r: Result<String, GraphError>)
    requires
        well_formed(graph_of(input@)),
    ensures
        r is Ok <==> has_id(graph_of(input@), source.id),
        r is Err ==> r->Err_0 == GraphError::NotFound(source.id),
        r is Ok ==> r->Ok_0@ == naming_outcome(graph_of(input@), source.id),
{
    let index = match position_of(input, source.id) {
        Some(i) => i,
        None => return Err(GraphError::NotFound(source.id)),
    };
    let molecula = match find_connex(input, index) {
        Ok(m) => m,
        Err(_) => {
            proof {
                reveal_strlit("ERR: La molecula conté un cicle :c");
            }
            return Ok(String::from_str("ERR: La molecula conté un cicle :c"));
        },
    };
    let ghost comp = component(graph_of(input@), source.id);
    let mut k: usize = 0;
    while k < molecula.len()
        invariant
            k <= molecula@.len(),
            graph_of(molecula@) == comp,
            comp == component(graph_of(input@), source.id),
            has_id(graph_of(input@), source.id),
            !has_cycle(graph_of(input@), source.id),
            forall|j: int| 0 <= j < k ==> !has_carbon(#[trigger] comp[j].radical),
        decreases molecula@.len() - k,
    {
        assert(comp[k as int].radical == molecula@[k as int].radical);
        if molecula[k].radical.contains_carbon() {
            proof {
                reveal_strlit("Encara noooo");
                assert(has_carbon(comp[k as int].radical));
            }
            return Ok(String::from_str("Encara noooo"));
        }
        k += 1;
    }
    proof {
        reveal_strlit("ERR: La molecula (sota el cursor) ha de contindre carboni");
    }
    Ok(String::from_str("ERR: La molecula (sota el cursor) ha de contindre carboni"))
}

} // verus!
