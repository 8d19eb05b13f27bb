//! The controls that an outside selection calls back, paid on the session that the
//! statement runs on.

use vstd::prelude::*;
use crate::errors::WriteTxnError;
use crate::plan::failure;
use crate::selection::{
    both_polls, control_of, node_asks, pay_node, poll_both, query_control, selection_error,
    selection_fault, SelectionError,
};
use crate::session::{
    followed, lemma_followed_compose, lemma_followed_extend, refused, Host, Request, Session,
};
use crate::statement::{query_unit, Fault};

verus! {

/// One control of a selection: a visible node was admitted, something hidden was
/// walked over, or one unit of evaluation was done.
#[derive(Clone, Copy, PartialEq, Eq, Structural, Debug)]
pub enum Control {
    Node,
    Poll,
    Work,
}

/// What one control asks. Hidden data pays nothing.
pub open spec fn control_asks(control: Control) -> Seq<Request> {
    match control {
        Control::Node => node_asks(),
        Control::Poll => both_polls(),
        Control::Work => query_unit(),
    }
}

/// What a run of controls asks.
pub open spec fn controls_asks(controls: Seq<Control>) -> Seq<Request>
    decreases controls.len(),
{
    if controls.len() == 0 {
        Seq::empty()
    } else {
        controls_asks(controls.drop_last()) + control_asks(controls.last())
    }
}

/// What a statement reports of a stopped control.
pub open spec fn stopped(refusal: Option<WriteTxnError>) -> Option<Fault> {
    match refusal {
        Some(error) => Some(selection_fault(SelectionError::Control(control_of(error)))),
        None => None,
    }
}

/// Pay one control.
pub fn pay_control<H: Host>(control: Control, session: &mut Session<H>) -> (paid: Result<(), Fault>)
    ensures
        final(session).metered() == old(session).metered(),
        followed(old(session).log(), final(session).log(), control_asks(control)),
        failure(paid) == stopped(refused(old(session).log(), final(session).log())),
{
    let answer = match control {
        Control::Node => pay_node(session),
        Control::Poll => poll_both(session),
        Control::Work => session.query_work(),
    };
    match answer {
        Ok(()) => Ok(()),
        Err(error) => Err(selection_error(SelectionError::Control(query_control(error)))),
    }
}

proof fn lemma_asks_prefix(controls: Seq<Control>, n: int)
    requires
        0 <= n <= controls.len(),
    ensures
        controls_asks(controls.take(n)).is_prefix_of(controls_asks(controls)),
    decreases controls.len(),
{
    if n == controls.len() {
        assert(controls.take(n) =~= controls);
    } else {
        lemma_asks_prefix(controls.drop_last(), n);
        assert(controls.drop_last().take(n) =~= controls.take(n));
    }
}

/// Pay the controls of a selection, in order, up to the first that is stopped.
pub fn pay_controls<H: Host>(controls: &Vec<Control>, session: &mut Session<H>) -> (paid: Result<
    (),
    Fault,
>)
    ensures
        final(session).metered() == old(session).metered(),
        followed(old(session).log(), final(session).log(), controls_asks(controls@)),
        failure(paid) == stopped(refused(old(session).log(), final(session).log())),
{
    let ghost start = session.log();
    let ghost all = controls@;
    proof {
        assert(controls_asks(all.take(0)) =~= Seq::<Request>::empty());
        assert(start.take(start.len() as int) =~= start);
    }
    let mut i: usize = 0;
    while i < controls.len()
        invariant
            i <= controls.len(),
            all == controls@,
            start == old(session).log(),
            session.metered() == old(session).metered(),
            followed(start, session.log(), controls_asks(all.take(i as int))),
            refused(start, session.log()) is None,
        decreases controls.len() - i,
    {
        let ghost before = session.log();
        let paid = pay_control(controls[i], session);
        proof {
            let next = all.take(i + 1);
            assert(next.drop_last() =~= all.take(i as int));
            lemma_followed_compose(
                start, before, session.log(), controls_asks(all.take(i as int)),
                control_asks(all[i as int]),
            );
            assert(controls_asks(next) == controls_asks(all.take(i as int)) + control_asks(
                all[i as int],
            ));
            lemma_asks_prefix(all, i + 1);
        }
        if let Err(fault) = paid {
            proof {
                let head = controls_asks(all.take(i + 1));
                let whole = controls_asks(all);
                let tail = whole.skip(head.len() as int);
                assert(head + tail =~= whole);
                lemma_followed_extend(start, session.log(), head, tail);
            }
            return Err(fault);
        }
        i += 1;
    }
    assert(all.take(i as int) =~= all);
    Ok(())
}

} // verus!
