//! The combining protocol as a state machine over handles.
//!
//! Every handle is idle or has one operation in flight. The operations are
//! served in the order in which they were registered: the handles stand in a
//! line, the front of the line becomes the combiner when no combiner is
//! active, and the combiner serves the handles behind it until it has helped
//! as many as the help bound allows or finds one that has not published its
//! request yet.
use vstd::prelude::*;

verus! {

/// The number of operations of other handles that a combiner serves in one
/// combining episode at most.
pub const CCSYNCH_HELP_BOUND: usize = 256;

/// How far the operation of a handle has come. The payload is the request
/// until the operation was applied, and its result afterwards.
pub enum Op<D> {
    /// The handle swapped its node in and has not read its predecessor's
    /// status yet.
    Registered(D),
    /// The handle found its predecessor waiting and is about to publish its
    /// request.
    Staged(D),
    /// The request is published; the handle spins on its predecessor's status.
    Waiting(D),
    /// A combiner applied the request; the handle has not noticed yet.
    Served(D),
    /// The handle is the combiner and has not applied its own request yet.
    Elected(D),
    /// The handle is the combiner, has applied its own request and walks the
    /// list.
    Helping(D),
}

impl<D> Op<D> {
    /// The request or result that the operation carries.
    pub open spec fn payload(self) -> D {
        match self {
            Op::Registered(d) => d,
            Op::Staged(d) => d,
            Op::Waiting(d) => d,
            Op::Served(d) => d,
            Op::Elected(d) => d,
            Op::Helping(d) => d,
        }
    }

    /// Whether the operation stands in the line: registered, and neither
    /// served nor elected.
    pub open spec fn in_line(self) -> bool {
        self is Registered || self is Staged || self is Waiting
    }

    /// Whether the operation is that of the combiner.
    pub open spec fn combining(self) -> bool {
        self is Elected || self is Helping
    }

    /// Whether the request was applied to the shared state.
    pub open spec fn applied(self) -> bool {
        self is Served || self is Helping
    }
}

impl<D> Op<D> {
    /// The same operation with its payload seen through `f`.
    pub open spec fn map<E>(self, f: spec_fn(D) -> E) -> Op<E> {
        match self {
            Op::Registered(d) => Op::Registered(f(d)),
            Op::Staged(d) => Op::Staged(f(d)),
            Op::Waiting(d) => Op::Waiting(f(d)),
            Op::Served(d) => Op::Served(f(d)),
            Op::Elected(d) => Op::Elected(f(d)),
            Op::Helping(d) => Op::Helping(f(d)),
        }
    }
}

/// What one turn of a handle came to.
pub enum Turn<D> {
    /// The handle took a step of its own.
    Moved,
    /// The handle has to wait for a combiner: nothing changed.
    Blocked,
    /// The operation is complete, with this result. The handle is idle.
    Finished(D),
    /// The handle is the combiner and has to apply its own request, which
    /// is this.
    ApplyOwn(D),
    /// The handle is the combiner and has to apply this request of the
    /// handle at the front of the line.
    Serve(D),
}

impl<D> Turn<D> {
    /// The same outcome with its payload seen through `f`.
    pub open spec fn map<E>(self, f: spec_fn(D) -> E) -> Turn<E> {
        match self {
            Turn::Moved => Turn::Moved,
            Turn::Blocked => Turn::Blocked,
            Turn::Finished(d) => Turn::Finished(f(d)),
            Turn::ApplyOwn(d) => Turn::ApplyOwn(f(d)),
            Turn::Serve(d) => Turn::Serve(f(d)),
        }
    }
}

/// The state of one combining object and of the handles registered with it.
pub struct SynchView<D> {
    /// The handles in line, the one that registered first at the front.
    pub line: Seq<usize>,
    /// The combiner, while a combining episode lasts.
    pub combiner: Option<usize>,
    /// The number of handles that the combiner has served in this episode.
    pub helped: nat,
    /// The operation in flight of every handle that is not idle.
    pub ops: Map<usize, Op<D>>,
}

impl<D> SynchView<D> {
    /// The state in which nothing is registered.
    pub open spec fn quiescent() -> Self {
        SynchView { line: Seq::empty(), combiner: None, helped: 0, ops: Map::empty() }
    }

    /// What holds of every state that the protocol reaches: the line holds
    /// exactly the handles whose operation is neither served nor elected, each
    /// once, and there is at most one combiner.
    pub open spec fn wf(self) -> bool {
        &&& self.ops.dom().finite()
        &&& self.line.no_duplicates()
        &&& forall|i: int|
            0 <= i < self.line.len() ==> self.ops.contains_key(#[trigger] self.line[i])
                && self.ops[self.line[i]].in_line()
        &&& forall|h: usize|
            self.ops.contains_key(h) && (#[trigger] self.ops[h]).in_line() ==> self.line.contains(
                h,
            )
        &&& forall|h: usize|
            self.ops.contains_key(h) ==> ((#[trigger] self.ops[h]).combining() <==> self.combiner
                == Some(h))
        &&& self.combiner matches Some(c) ==> self.ops.contains_key(c)
        &&& self.helped <= CCSYNCH_HELP_BOUND
        &&& self.helped > 0 ==> (self.combiner matches Some(c) && self.ops[c] is Helping)
    }

    /// Whether an operation that registers now is elected at once: no
    /// combiner is active and nobody stands in line.
    pub open spec fn unlocked(self) -> bool {
        self.combiner is None && self.line.len() == 0
    }

    /// Whether `handle` has no operation in flight.
    pub open spec fn idle(self, handle: usize) -> bool {
        !self.ops.contains_key(handle)
    }

    /// Whether `handle` would find its predecessor ready: it stands at the
    /// front of the line and no combiner is active.
    pub open spec fn lock_free_for(self, handle: usize) -> bool {
        self.combiner is None && self.line.len() > 0 && self.line[0] == handle
    }

    /// `handle` swaps its node in with `request` and joins the line.
    pub open spec fn register(self, handle: usize, request: D) -> Self {
        SynchView {
            line: self.line.push(handle),
            ops: self.ops.insert(handle, Op::Registered(request)),
            ..self
        }
    }

    /// `handle` leaves the front of the line and becomes the combiner.
    pub open spec fn elect(self, handle: usize) -> Self {
        SynchView {
            line: self.line.drop_first(),
            combiner: Some(handle),
            helped: 0,
            ops: self.ops.insert(handle, Op::Elected(self.ops[handle].payload())),
        }
    }

    /// `handle` reads its predecessor's status for the first time.
    pub open spec fn observe(self, handle: usize) -> Self {
        if self.lock_free_for(handle) {
            self.elect(handle)
        } else {
            SynchView {
                ops: self.ops.insert(handle, Op::Staged(self.ops[handle].payload())),
                ..self
            }
        }
    }

    /// `handle` publishes its request into its predecessor.
    pub open spec fn publish(self, handle: usize) -> Self {
        SynchView {
            ops: self.ops.insert(handle, Op::Waiting(self.ops[handle].payload())),
            ..self
        }
    }

    /// `handle`, having published, reads its predecessor's status again: it
    /// goes on waiting, becomes the combiner, or finds its request served and
    /// becomes idle.
    pub open spec fn spin(self, handle: usize) -> Self {
        if self.ops[handle] is Served {
            SynchView { ops: self.ops.remove(handle), ..self }
        } else if self.lock_free_for(handle) {
            self.elect(handle)
        } else {
            self
        }
    }

    /// The combiner `handle` has applied its own request, with `result`.
    pub open spec fn apply_own(self, handle: usize, result: D) -> Self {
        SynchView { ops: self.ops.insert(handle, Op::Helping(result)), ..self }
    }

    /// Whether the combiner serves the front of the line next: the handle
    /// there has published its request and the help bound is not reached.
    pub open spec fn can_help(self) -> bool {
        &&& self.line.len() > 0
        &&& self.ops[self.line[0]] is Waiting
        &&& self.helped < CCSYNCH_HELP_BOUND
    }

    /// The combiner has applied the request of the front of the line, with
    /// `result`.
    pub open spec fn help(self, result: D) -> Self {
        SynchView {
            line: self.line.drop_first(),
            helped: self.helped + 1,
            ops: self.ops.insert(self.line[0], Op::Served(result)),
            ..self
        }
    }

    /// The combiner `handle` ends its episode and becomes idle.
    pub open spec fn release(self, handle: usize) -> Self {
        SynchView { combiner: None, helped: 0, ops: self.ops.remove(handle), ..self }
    }

    /// One turn of `handle`, whose operation is in flight: the step that the
    /// protocol has it take next. Where the step is to apply a request to the
    /// shared state, the state of the protocol is left as it is, for
    /// [`Self::apply_own`] or [`Self::help`] to follow.
    pub open spec fn turn(self, handle: usize) -> (Self, Turn<D>) {
        match self.ops[handle] {
            Op::Registered(_) => (self.observe(handle), Turn::Moved),
            Op::Staged(_) => (self.publish(handle), Turn::Moved),
            Op::Waiting(_) => if self.lock_free_for(handle) {
                (self.elect(handle), Turn::Moved)
            } else {
                (self, Turn::Blocked)
            },
            Op::Served(result) => (self.spin(handle), Turn::Finished(result)),
            Op::Elected(request) => (self, Turn::ApplyOwn(request)),
            Op::Helping(result) => if self.can_help() {
                (self, Turn::Serve(self.ops[self.line[0]].payload()))
            } else {
                (self.release(handle), Turn::Finished(result))
            },
        }
    }

    /// The same state with every payload seen through `f`.
    pub open spec fn map<E>(self, f: spec_fn(D) -> E) -> SynchView<E> {
        SynchView {
            line: self.line,
            combiner: self.combiner,
            helped: self.helped,
            ops: Map::new(|h: usize| self.ops.contains_key(h), |h: usize| self.ops[h].map(f)),
        }
    }

    /// Seeing the payloads through `f` keeps what holds of every state.
    pub proof fn lemma_map_wf<E>(self, f: spec_fn(D) -> E)
        requires
            self.wf(),
        ensures
            self.map(f).wf(),
    {
        assert(self.map(f).ops.dom() =~= self.ops.dom());
    }

    /// Registering and then looking through `f` is looking through `f` and
    /// then registering.
    pub proof fn lemma_map_register<E>(self, f: spec_fn(D) -> E, handle: usize, request: D)
        ensures
            self.register(handle, request).map(f) == self.map(f).register(handle, f(request)),
    {
        assert(self.register(handle, request).map(f).ops =~= self.map(f).register(
            handle,
            f(request),
        ).ops);
    }

    /// A turn and then a look through `f` is a look through `f` and then a
    /// turn.
    pub proof fn lemma_map_turn<E>(self, f: spec_fn(D) -> E, handle: usize)
        requires
            self.wf(),
            self.ops.contains_key(handle),
        ensures
            self.turn(handle).0.map(f) == self.map(f).turn(handle).0,
            self.turn(handle).1.map(f) == self.map(f).turn(handle).1,
    {
        let a = self.turn(handle).0.map(f);
        let b = self.map(f).turn(handle).0;
        if self.line.len() > 0 {
            assert(self.ops.contains_key(self.line[0]));
        }
        assert(a.ops =~= b.ops);
    }

    /// The same for the combiner's own request.
    pub proof fn lemma_map_apply_own<E>(self, f: spec_fn(D) -> E, handle: usize, result: D)
        ensures
            self.apply_own(handle, result).map(f) == self.map(f).apply_own(handle, f(result)),
    {
        assert(self.apply_own(handle, result).map(f).ops =~= self.map(f).apply_own(
            handle,
            f(result),
        ).ops);
    }

    /// The same for a request served on behalf of another handle.
    pub proof fn lemma_map_help<E>(self, f: spec_fn(D) -> E, result: D)
        ensures
            self.help(result).map(f) == self.map(f).help(f(result)),
    {
        assert(self.help(result).map(f).ops =~= self.map(f).help(f(result)).ops);
    }

    /// A handle that stands in line stands there once, and every handle
    /// behind the front is another than the one at the front.
    proof fn lemma_line(self, handle: usize)
        requires
            self.wf(),
            self.ops.contains_key(handle),
        ensures
            self.ops[handle].in_line() ==> self.line.contains(handle),
            !self.ops[handle].in_line() ==> !self.line.contains(handle),
            self.line.len() > 0 && self.line[0] == handle ==> !self.line.drop_first().contains(
                handle,
            ),
            forall|k: usize|
                k != handle && self.line.contains(k) ==> self.line.len() > 0 && (self.line[0]
                    == handle ==> #[trigger] self.line.drop_first().contains(k)),
    {
        if self.line.contains(handle) {
            let i = choose|i: int| 0 <= i < self.line.len() && self.line[i] == handle;
            assert(self.ops[self.line[i]].in_line());
        }
        if self.line.len() > 0 && self.line[0] == handle {
            let rest = self.line.drop_first();
            if rest.contains(handle) {
                let i = choose|i: int| 0 <= i < rest.len() && rest[i] == handle;
                assert(self.line[i + 1] == handle);
            }
            assert forall|k: usize| k != handle && self.line.contains(k) implies
                #[trigger] rest.contains(k) by {
                let i = choose|i: int| 0 <= i < self.line.len() && self.line[i] == k;
                assert(rest[i - 1] == k);
            }
        }
    }

    /// Registering keeps what holds of every state.
    pub proof fn lemma_register_wf(self, handle: usize, request: D)
        requires
            self.wf(),
            self.idle(handle),
        ensures
            self.register(handle, request).wf(),
    {
        let next = self.register(handle, request);
        assert(next.ops.dom() =~= self.ops.dom().insert(handle));
        assert forall|i: int, j: int|
            0 <= i < next.line.len() && 0 <= j < next.line.len() && i != j implies
            next.line[i] != next.line[j] by {
            if i < self.line.len() {
                assert(self.ops.contains_key(self.line[i]));
            }
            if j < self.line.len() {
                assert(self.ops.contains_key(self.line[j]));
            }
        }
        assert forall|i: int| 0 <= i < next.line.len() implies
            next.ops.contains_key(#[trigger] next.line[i]) && next.ops[next.line[i]].in_line() by {
            if i < self.line.len() {
                assert(self.ops.contains_key(self.line[i]));
            }
        }
        assert forall|h: usize|
            next.ops.contains_key(h) && (#[trigger] next.ops[h]).in_line() implies
            next.line.contains(h) by {
            if h == handle {
                assert(next.line[self.line.len() as int] == h);
            } else {
                let i = choose|i: int| 0 <= i < self.line.len() && self.line[i] == h;
                assert(next.line[i] == h);
            }
        }
    }

    /// The front of the line becomes the combiner: this keeps what holds of
    /// every state.
    proof fn lemma_elect_wf(self, handle: usize)
        requires
            self.wf(),
            self.lock_free_for(handle),
        ensures
            self.elect(handle).wf(),
    {
        let next = self.elect(handle);
        assert(self.ops.contains_key(self.line[0]));
        self.lemma_line(handle);
        assert(next.ops.dom() =~= self.ops.dom());
        assert forall|i: int| 0 <= i < next.line.len() implies
            next.ops.contains_key(#[trigger] next.line[i]) && next.ops[next.line[i]].in_line() by {
            assert(self.ops.contains_key(self.line[i + 1]));
            assert(next.line.contains(next.line[i]));
        }
        assert forall|h: usize|
            next.ops.contains_key(h) && (#[trigger] next.ops[h]).in_line() implies
            next.line.contains(h) by {
            assert(self.line.contains(h));
        }
    }

    /// A turn keeps what holds of every state.
    pub proof fn lemma_turn_wf(self, handle: usize)
        requires
            self.wf(),
            self.ops.contains_key(handle),
        ensures
            self.turn(handle).0.wf(),
    {
        let next = self.turn(handle).0;
        self.lemma_line(handle);
        if self.lock_free_for(handle) {
            self.lemma_elect_wf(handle);
        }
        if next != self && next != self.elect(handle) {
            if next.ops.contains_key(handle) {
                assert(next.ops.dom() =~= self.ops.dom());
            } else {
                assert(next.ops.dom() =~= self.ops.dom().remove(handle));
            }
            assert forall|i: int|
                0 <= i < next.line.len() implies
                next.ops.contains_key(#[trigger] next.line[i])
                    && next.ops[next.line[i]].in_line() by {
                assert(self.ops.contains_key(self.line[i]));
                assert(self.line.contains(self.line[i]));
            }
            assert forall|h: usize|
                next.ops.contains_key(h) && (#[trigger] next.ops[h]).in_line() implies
                next.line.contains(h) by {
                assert(self.ops.contains_key(h));
            }
        }
    }

    /// The combiner's own request, applied, keeps what holds of every state.
    pub proof fn lemma_apply_own_wf(self, handle: usize, result: D)
        requires
            self.wf(),
            self.ops.contains_key(handle),
            self.ops[handle] is Elected,
        ensures
            self.apply_own(handle, result).wf(),
    {
        let next = self.apply_own(handle, result);
        self.lemma_line(handle);
        assert(next.ops.dom() =~= self.ops.dom());
        assert forall|i: int| 0 <= i < next.line.len() implies
            next.ops.contains_key(#[trigger] next.line[i]) && next.ops[next.line[i]].in_line() by {
            assert(self.ops.contains_key(self.line[i]));
            assert(self.line.contains(self.line[i]));
        }
        assert forall|h: usize|
            next.ops.contains_key(h) && (#[trigger] next.ops[h]).in_line() implies
            next.line.contains(h) by {
            assert(self.ops.contains_key(h));
        }
    }

    /// A request served for the front of the line keeps what holds of every
    /// state.
    pub proof fn lemma_help_wf(self, handle: usize, result: D)
        requires
            self.wf(),
            self.ops.contains_key(handle),
            self.ops[handle] is Helping,
            self.can_help(),
        ensures
            self.help(result).wf(),
    {
        let next = self.help(result);
        let front = self.line[0];
        assert(self.ops.contains_key(front));
        self.lemma_line(front);
        assert(next.ops.dom() =~= self.ops.dom());
        assert forall|i: int| 0 <= i < next.line.len() implies
            next.ops.contains_key(#[trigger] next.line[i]) && next.ops[next.line[i]].in_line() by {
            assert(self.ops.contains_key(self.line[i + 1]));
            assert(next.line.contains(next.line[i]));
        }
        assert forall|h: usize|
            next.ops.contains_key(h) && (#[trigger] next.ops[h]).in_line() implies
            next.line.contains(h) by {
            assert(self.line.contains(h));
        }
    }

    /// While an operation is in flight, some handle's turn is not blocked:
    /// the combiner's, if there is one, else that of the front of the line,
    /// else that of a handle whose request was served.
    pub proof fn lemma_progress(self, handle: usize) -> (mover: usize)
        requires
            self.wf(),
            self.ops.contains_key(handle),
        ensures
            self.ops.contains_key(mover),
            !(self.turn(mover).1 is Blocked),
    {
        match self.combiner {
            Some(c) => c,
            None => {
                if self.line.len() > 0 {
                    assert(self.ops.contains_key(self.line[0]));
                    self.line[0]
                } else {
                    if self.ops[handle].in_line() {
                        assert(self.line.contains(handle));
                    }
                    handle
                }
            },
        }
    }
}

} // verus!
