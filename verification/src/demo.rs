//! The scripted demo: typing, pauses and editor actions, one after the other.
use crate::text::chars_vec;
use vstd::prelude::*;
use vstd::string::*;

verus! {

/// The pause before the script and after it, in milliseconds.
pub const DEMO_REST_MS: u64 = 500;

/// A step of a demo script, with editor actions `A`.
#[derive(Debug, Clone, PartialEq)]
pub enum DemoStep<A> {
    /// The text is typed character by character.
    Type(String),
    /// A pause in milliseconds.
    Wait(u64),
    Action(A),
}

/// What happens next in a demo.
#[derive(Debug, Clone, Copy, PartialEq, Eq, Structural)]
pub enum DemoEvent {
    /// The character at an index of the text of a step.
    Type { step: usize, at: usize },
    /// The action of the script's step at this index.
    Action(usize),
    Wait(u64),
    /// The pause after a typed character.
    CharDelay,
    /// The pause after an action.
    KeyDelay,
}

/// The first `n` characters of a step's text are typed one by one, each with its pause.
pub open spec fn typed(step: usize, n: int) -> Seq<DemoEvent>
    decreases n,
{
    if n <= 0 {
        seq![]
    } else {
        typed(step, n - 1).push(DemoEvent::Type { step, at: (n - 1) as usize }).push(
            DemoEvent::CharDelay,
        )
    }
}

/// The events of the step at index `i`.
pub open spec fn step_events<A>(step: DemoStep<A>, i: usize) -> Seq<DemoEvent> {
    match step {
        DemoStep::Type(text) => typed(i, text@.len() as int),
        DemoStep::Wait(ms) => seq![DemoEvent::Wait(ms)],
        DemoStep::Action(_) => seq![DemoEvent::Action(i), DemoEvent::KeyDelay],
    }
}

/// The events of the first `k` steps.
pub open spec fn script_events<A>(script: Seq<DemoStep<A>>, k: int) -> Seq<DemoEvent>
    decreases k,
{
    if k <= 0 {
        seq![]
    } else {
        script_events(script, k - 1) + step_events(script[k - 1], (k - 1) as usize)
    }
}

/// The events of a whole demo: a rest, the steps of the script in order, and a rest.
pub fn demo_events<A>(script: &[DemoStep<A>]) -> (r: Vec<DemoEvent>)
    ensures
        r@ == seq![DemoEvent::Wait(DEMO_REST_MS)] + script_events(script@, script@.len() as int)
            + seq![DemoEvent::Wait(DEMO_REST_MS)],
{
    let mut out: Vec<DemoEvent> = Vec::new();
    out.push(DemoEvent::Wait(DEMO_REST_MS));
    let ghost rest = seq![DemoEvent::Wait(DEMO_REST_MS)];
    let mut i: usize = 0;
    while i < script.len()
        invariant
            i <= script@.len(),
            out@ =~= rest + script_events(script@, i as int),
        decreases script@.len() - i,
    {
        match &script[i] {
            DemoStep::Type(text) => push_typed(&mut out, i, text.as_str()),
            DemoStep::Wait(ms) => out.push(DemoEvent::Wait(*ms)),
            DemoStep::Action(_) => {
                out.push(DemoEvent::Action(i));
                out.push(DemoEvent::KeyDelay);
            },
        }
        i += 1;
    }
    out.push(DemoEvent::Wait(DEMO_REST_MS));
    out
}

fn push_typed(out: &mut Vec<DemoEvent>, step: usize, text: &str)
    ensures
        final(out)@ == old(out)@ + typed(step, text@.len() as int),
{
    let ghost before = out@;
    let n = chars_vec(text).len();
    let mut i: usize = 0;
    while i < n
        invariant
            i <= n,
            out@ =~= before + typed(step, i as int),
        decreases n - i,
    {
        out.push(DemoEvent::Type { step, at: i });
        out.push(DemoEvent::CharDelay);
        i += 1;
    }
}

/// A demo types every character of a text in order, each with a pause behind it; an action
/// is followed by its pause; the steps come one after the other.
pub proof fn law_demo_order<A>(script: Seq<DemoStep<A>>, k: int, n: int, i: int)
    requires
        0 <= k < script.len() <= usize::MAX,
        0 <= i < n <= usize::MAX,
    ensures
        script_events(script, k + 1) == script_events(script, k) + step_events(
            script[k],
            k as usize,
        ),
        script_events(script, 0).len() == 0,
        typed(k as usize, n).len() == 2 * n,
        typed(k as usize, n)[2 * i] == (DemoEvent::Type { step: k as usize, at: i as usize }),
        typed(k as usize, n)[2 * i + 1] == DemoEvent::CharDelay,
        script[k] matches DemoStep::Type(text) ==> step_events(script[k], k as usize) == typed(
            k as usize,
            text@.len() as int,
        ),
        script[k] matches DemoStep::Wait(ms) ==> step_events(script[k], k as usize) == seq![
            DemoEvent::Wait(ms),
        ],
        script[k] is Action ==> step_events(script[k], k as usize) == seq![
            DemoEvent::Action(k as usize),
            DemoEvent::KeyDelay,
        ],
{
    lemma_typed(k as usize, n, i);
}

proof fn lemma_typed(step: usize, n: int, i: int)
    requires
        0 <= i < n <= usize::MAX,
    ensures
        typed(step, n).len() == 2 * n,
        typed(step, n)[2 * i] == (DemoEvent::Type { step, at: i as usize }),
        typed(step, n)[2 * i + 1] == DemoEvent::CharDelay,
    decreases n,
{
    if i < n - 1 {
        lemma_typed(step, n - 1, i);
    } else if n > 1 {
        lemma_typed(step, n - 1, n - 2);
    } else {
        assert(typed(step, 0).len() == 0);
    }
}

} // verus!
