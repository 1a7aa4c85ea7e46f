//! The order in which a run of the parser completes objects.
//!
//! An object is complete when `EndObject` closes it, or when a `Value`
//! event carries it whole.  Over a run that ends in `Done`, the objects
//! completed, event by event, are exactly the objects of the document in
//! the order of their closing braces, each once: nested objects before the
//! object that holds them.
use vstd::prelude::*;

use crate::grammar::document;
use crate::error::ParseError;
use crate::parser::{attach, close, Event, Frame, Parser};
use crate::value::JsonModel;

verus! {

/// The objects in `v`, in the order of their closing braces.
pub open spec fn objects_post(v: JsonModel) -> Seq<JsonModel>
    decreases v,
{
    match v {
        JsonModel::Array(items) => items_objects(items),
        JsonModel::Object(entries) => members_objects(entries).push(v),
        _ => seq![],
    }
}

/// The objects in a sequence of values, in the order of their closing
/// braces.
pub open spec fn items_objects(items: Seq<JsonModel>) -> Seq<JsonModel>
    decreases items,
{
    if items.len() == 0 {
        seq![]
    } else {
        items_objects(items.subrange(0, items.len() - 1)) + objects_post(items[items.len() - 1])
    }
}

/// The objects in the values of a sequence of members, in the order of
/// their closing braces.
pub open spec fn members_objects(entries: Seq<(Seq<char>, JsonModel)>) -> Seq<JsonModel>
    decreases entries,
{
    if entries.len() == 0 {
        seq![]
    } else {
        members_objects(entries.subrange(0, entries.len() - 1)) + objects_post(
            entries[entries.len() - 1].1,
        )
    }
}

/// The objects completed inside an open container.
pub open spec fn frame_objects(f: Frame) -> Seq<JsonModel> {
    match f {
        Frame::Array(items) => items_objects(items),
        Frame::Object(entries, _) => members_objects(entries),
    }
}

/// The objects completed inside the open containers, outermost first.
pub open spec fn frames_objects(frames: Seq<Frame>) -> Seq<JsonModel>
    decreases frames.len(),
{
    if frames.len() == 0 {
        seq![]
    } else {
        frames_objects(frames.drop_last()) + frame_objects(frames.last())
    }
}

pub open spec fn root_objects(root: Option<JsonModel>) -> Seq<JsonModel> {
    match root {
        Some(v) => objects_post(v),
        None => seq![],
    }
}

/// The objects that an event completes, given the open containers before
/// it.
pub open spec fn completed_by<E>(ev: Event<E>, frames: Seq<Frame>) -> Seq<JsonModel> {
    match ev {
        Event::Value(v) => objects_post(v@),
        Event::EndObject => seq![close(frames.last())],
        _ => seq![],
    }
}

/// The objects completed by the first `i` events of a run.
pub open spec fn completed_in_run<'a, E>(
    states: Seq<Parser<'a, E>>,
    events: Seq<Event<E>>,
    i: nat,
) -> Seq<JsonModel>
    decreases i,
{
    if i == 0 {
        seq![]
    } else {
        completed_in_run(states, events, (i - 1) as nat) + completed_by(
            events[i - 1],
            states[i - 1].frames(),
        )
    }
}

proof fn lemma_attach_objects(f: Frame, v: JsonModel)
    ensures
        frame_objects(attach(f, v)) == frame_objects(f) + objects_post(v),
{
    match f {
        Frame::Array(items) => {
            assert(items.push(v).subrange(0, items.len() as int) =~= items);
        },
        Frame::Object(entries, key) => {
            assert(entries.push((key, v)).subrange(0, entries.len() as int) =~= entries);
        },
    }
}

/// Adding a completed value to the innermost container, or making it the
/// root, adds its objects at the end.
proof fn lemma_attach_to_objects(frames: Seq<Frame>, v: JsonModel)
    ensures
        ({
            let (f2, r2) = crate::parser::attach_to(frames, None, v);
            frames_objects(f2) + root_objects(r2) == frames_objects(frames) + objects_post(v)
        }),
{
    if frames.len() == 0 {
        assert(frames_objects(frames) + objects_post(v) =~= objects_post(v));
        assert(Seq::<JsonModel>::empty() + objects_post(v) =~= objects_post(v));
    } else {
        let f2 = frames.update(frames.len() - 1, attach(frames.last(), v));
        assert(f2.drop_last() =~= frames.drop_last());
        lemma_attach_objects(frames.last(), v);
        assert(frames_objects(f2) + root_objects(None) =~= frames_objects(f2));
        assert(frames_objects(frames.drop_last()) + (frame_objects(frames.last()) + objects_post(
            v,
        )) =~= frames_objects(frames.drop_last()) + frame_objects(frames.last()) + objects_post(
            v,
        ));
    }
}

/// One step of a run adds to the completed objects exactly what its event
/// completes.
proof fn lemma_step_objects<'a, E>(p: Parser<'a, E>, p2: Parser<'a, E>, ev: Event<E>)
    requires
        p.reports(p2, ev),
    ensures
        frames_objects(p2.frames()) + root_objects(p2.root()) == frames_objects(p.frames())
            + root_objects(p.root()) + completed_by(ev, p.frames()),
{
    let fs = p.frames();
    let base = frames_objects(fs) + root_objects(p.root());
    match ev {
        Event::Value(v) => {
            lemma_attach_to_objects(fs, v@);
            assert(root_objects(p.root()) =~= Seq::<JsonModel>::empty());
            assert(base =~= frames_objects(fs));
        },
        Event::BeginArray => {
            let f = Frame::Array(seq![]);
            assert(fs.push(f).drop_last() =~= fs);
            assert(frames_objects(fs.push(f)) =~= frames_objects(fs));
            assert(base + completed_by(ev, fs) =~= base);
        },
        Event::BeginObject(k) => {
            let f = Frame::Object(seq![], k@);
            assert(fs.push(f).drop_last() =~= fs);
            assert(frames_objects(fs.push(f)) =~= frames_objects(fs));
            assert(base + completed_by(ev, fs) =~= base);
        },
        Event::Key(k) => {
            let top = fs.last();
            let f2 = fs.update(fs.len() - 1, Frame::Object(top->Object_0, k@));
            assert(f2.drop_last() =~= fs.drop_last());
            assert(frames_objects(f2) == frames_objects(fs));
            assert(base + completed_by(ev, fs) =~= base);
        },
        Event::EndArray | Event::EndObject => {
            let outer = fs.drop_last();
            let c = close(fs.last());
            lemma_attach_to_objects(outer, c);
            assert(root_objects(p.root()) =~= Seq::<JsonModel>::empty());
            assert(base =~= frames_objects(outer) + frame_objects(fs.last()));
            if ev is EndArray {
                assert(objects_post(c) == frame_objects(fs.last()));
                assert(base + completed_by(ev, fs) =~= base);
            } else {
                assert(objects_post(c) == frame_objects(fs.last()).push(c));
                assert(frame_objects(fs.last()).push(c) =~= frame_objects(fs.last()) + seq![c]);
            }
            assert(frames_objects(outer) + (frame_objects(fs.last()) + completed_by(ev, fs))
                =~= frames_objects(outer) + frame_objects(fs.last()) + completed_by(ev, fs));
        },
        Event::Done => {
            assert(base + completed_by(ev, fs) =~= base);
        },
        Event::Failed(..) => {
            assert(base + completed_by(ev, fs) =~= base);
        },
    }
}

proof fn lemma_run_objects<'a, E>(states: Seq<Parser<'a, E>>, events: Seq<Event<E>>, i: nat)
    requires
        states.len() == events.len() + 1,
        i <= events.len(),
        states[0].frames() == Seq::<Frame>::empty(),
        states[0].root() is None,
        forall|j: int| 0 <= j < events.len() ==> #[trigger] states[j].reports(states[j + 1], events[j]),
    ensures
        completed_in_run(states, events, i) == frames_objects(states[i as int].frames())
            + root_objects(states[i as int].root()),
    decreases i,
{
    if i == 0 {
        assert(frames_objects(states[0].frames()) + root_objects(states[0].root()) =~= seq![]);
    } else {
        let j = i - 1;
        lemma_run_objects(states, events, j as nat);
        assert(states[j].reports(states[j + 1], events[j]));
        lemma_step_objects(states[j], states[j + 1], events[j]);
    }
}

/// Over a run of the parser from its start to `Done`, the objects that the
/// events complete (a closing `EndObject`, or an object carried whole by a
/// `Value`), in event order, are the objects of the document's value in the
/// order of their closing braces, each exactly once.  This is the order in
/// which a consumer that finishes each object as it is completed sees them.
pub proof fn law_objects_complete_once<'a, E>(states: Seq<Parser<'a, E>>, events: Seq<Event<E>>)
    requires
        events.len() > 0,
        states.len() == events.len() + 1,
        states[0].frames() == Seq::<Frame>::empty(),
        states[0].root() is None,
        forall|j: int| 0 <= j < events.len() ==> #[trigger] states[j].reports(states[j + 1], events[j]),
        events.last() is Done,
    ensures
        states.last().root() is Some,
        document::<E>(states[0].input(), states[0].limit()) == Ok::<
            JsonModel,
            (ParseError<E>, int),
        >(states.last().root().unwrap()),
        completed_in_run(states, events, events.len()) == objects_post(
            states.last().root().unwrap(),
        ),
{
    let n = events.len() as int;
    lemma_run_objects(states, events, events.len());
    let j = n - 1;
    assert(states[j].reports(states[j + 1], events[j]));
    assert(states.last() == states[n]);
    lemma_same_run_input(states, events, (n - 1) as nat);
    assert(frames_objects(states[n].frames()) + root_objects(states[n].root()) =~= objects_post(
        states[n].root().unwrap(),
    ));
}

/// Every state of a run reads the same input with the same limit.
proof fn lemma_same_run_input<'a, E>(states: Seq<Parser<'a, E>>, events: Seq<Event<E>>, i: nat)
    requires
        states.len() == events.len() + 1,
        i < states.len(),
        forall|j: int| 0 <= j < events.len() ==> #[trigger] states[j].reports(states[j + 1], events[j]),
    ensures
        states[i as int].input() == states[0].input(),
        states[i as int].limit() == states[0].limit(),
    decreases i,
{
    if i > 0 {
        lemma_same_run_input(states, events, (i - 1) as nat);
        let j = i - 1;
        assert(states[j].reports(states[j + 1], events[j]));
    }
}

} // verus!
