use crate::area::Area;
use vstd::prelude::*;

verus! {

/// The writer, drawing area, and application state available while rendering.
pub struct Context<'a, S, W> {
    writer: &'a mut W,
    area: Area,
    state: &'a S,
}

/// Each context in the sequence keeps the area and the state of the one before it, as each call
/// of `frame` and `with_area` does with its context.
pub open spec fn keeps_view<'a, S, W>(contexts: Seq<Context<'a, S, W>>) -> bool {
    forall|k: int|
        0 <= k < contexts.len() - 1 ==> {
            &&& (#[trigger] contexts[k + 1]).area_spec() == contexts[k].area_spec()
            &&& contexts[k + 1].state_spec() == contexts[k].state_spec()
        }
}

/// Each context in the sequence sees the state of the one before it, as the child of
/// `with_area` sees its parent's.
pub open spec fn keeps_state<'a, S, W>(contexts: Seq<Context<'a, S, W>>) -> bool {
    forall|k: int|
        0 <= k < contexts.len() - 1 ==> (#[trigger] contexts[k + 1]).state_spec()
            == contexts[k].state_spec()
}

/// Over any sequence of calls, a context keeps its area and state: the only calls that take it
/// mutably, `frame` and `with_area`, each keep both.
pub proof fn lemma_context_keeps_view<'a, S, W>(contexts: Seq<Context<'a, S, W>>)
    requires
        keeps_view(contexts),
    ensures
        forall|k: int|
            0 <= k < contexts.len() ==> {
                &&& (#[trigger] contexts[k]).area_spec() == contexts[0].area_spec()
                &&& contexts[k].state_spec() == contexts[0].state_spec()
            },
    decreases contexts.len(),
{
    if contexts.len() > 1 {
        let d = contexts.drop_last();
        assert forall|k: int| 0 <= k < d.len() - 1 implies {
            &&& (#[trigger] d[k + 1]).area_spec() == d[k].area_spec()
            &&& d[k + 1].state_spec() == d[k].state_spec()
        } by {
            assert(d[k + 1] == contexts[k + 1] && d[k] == contexts[k]);
        }
        lemma_context_keeps_view(d);
        let n = contexts.len() - 1;
        assert(contexts[(n - 1) + 1].area_spec() == contexts[n - 1].area_spec());
        assert(contexts[n - 1] == d[n - 1]);
        assert forall|k: int| 0 <= k < contexts.len() implies {
            &&& (#[trigger] contexts[k]).area_spec() == contexts[0].area_spec()
            &&& contexts[k].state_spec() == contexts[0].state_spec()
        } by {
            if k < n {
                assert(contexts[k] == d[k]);
                assert(d[0] == contexts[0]);
            }
        }
    }
}

/// Every context derived from a root, child after child, sees the root's state.
pub proof fn lemma_derived_contexts_share_state<'a, S, W>(contexts: Seq<Context<'a, S, W>>)
    requires
        keeps_state(contexts),
    ensures
        forall|k: int|
            0 <= k < contexts.len() ==> (#[trigger] contexts[k]).state_spec()
                == contexts[0].state_spec(),
    decreases contexts.len(),
{
    if contexts.len() > 1 {
        let d = contexts.drop_last();
        assert forall|k: int| 0 <= k < d.len() - 1 implies (#[trigger] d[k + 1]).state_spec()
            == d[k].state_spec() by {
            assert(d[k + 1] == contexts[k + 1] && d[k] == contexts[k]);
        }
        lemma_derived_contexts_share_state(d);
        let n = contexts.len() - 1;
        assert(contexts[(n - 1) + 1].state_spec() == contexts[n - 1].state_spec());
        assert(contexts[n - 1] == d[n - 1]);
        assert forall|k: int| 0 <= k < contexts.len() implies (#[trigger] contexts[k]).state_spec()
            == contexts[0].state_spec() by {
            if k < n {
                assert(contexts[k] == d[k]);
                assert(d[0] == contexts[0]);
            }
        }
    }
}

impl<'a, S, W> Context<'a, S, W> {
    /// The area assigned to this context.
    pub closed spec fn area_spec(&self) -> Area {
        self.area
    }

    /// The application state of this context.
    pub closed spec fn state_spec(&self) -> &'a S {
        self.state
    }

    /// The writer's current value.
    pub closed spec fn writer_spec(&self) -> W {
        *self.writer
    }

    /// The borrow of the writer that this context renders through.
    pub closed spec fn writer_ref(&self) -> &'a mut W {
        self.writer
    }

    /// Creates a rendering context.
    pub fn new(writer: &'a mut W, area: Area, state: &'a S) -> (ctx: Self)
        ensures
            ctx.area_spec() == area,
            ctx.state_spec() == state,
            ctx.writer_spec() == *old(writer),
            *final(ctx.writer_ref()) == *final(writer),
    {
        Context { writer, area, state }
    }

    /// Returns the area assigned to this context.
    pub fn area(&self) -> (area: &Area)
        ensures
            *area == self.area_spec(),
    {
        &self.area
    }

    /// Returns the immutable application state for the current frame.
    pub fn state(&self) -> (state: &S)
        ensures
            state == self.state_spec(),
    {
        self.state
    }

    /// Returns direct access to the writer, along with a copy of the area and the state.
    pub fn frame(&mut self) -> (parts: (&mut W, Area, &S))
        ensures
            *parts.0 == old(self).writer_spec(),
            parts.1 == old(self).area_spec(),
            parts.2 == old(self).state_spec(),
            final(self).area_spec() == old(self).area_spec(),
            final(self).state_spec() == old(self).state_spec(),
            final(self).writer_spec() == *final(parts.0),
    {
        (&mut *self.writer, self.area, self.state)
    }

    /// Renders a child with the same writer and state in another area.
    ///
    /// The supplied area is not checked against the parent area.
    pub fn with_area<R, F>(&mut self, area: Area, draw: F) -> (r: R)
        where F: for<'b> FnOnce(&mut Context<'b, S, W>) -> R,
        requires
            forall|c: &mut Context<S, W>|
                c.area_spec() == area && c.state_spec() == old(self).state_spec()
                    && c.writer_spec() == old(self).writer_spec()
                    ==> #[trigger] call_requires(draw, (c,)),
        ensures
            exists|c: &mut Context<S, W>|
                c.area_spec() == area && c.state_spec() == old(self).state_spec()
                    && c.writer_spec() == old(self).writer_spec()
                    && #[trigger] call_ensures(draw, (c,), r),
            final(self).area_spec() == old(self).area_spec(),
            final(self).state_spec() == old(self).state_spec(),
    {
        let mut ctx = Context::new(&mut *self.writer, area, self.state);
        draw(&mut ctx)
    }
}

} // verus!
