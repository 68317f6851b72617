//! The turtle walk that turns a symbol string into line segments.
//!
//! The walk is resolved here up to the numbers: every turtle state gets an index,
//! state 0 being the state the walk starts in, and the result says how each later
//! state arises from an earlier one and which pairs of states are the ends of a
//! segment. Positions and headings are left to whoever evaluates the result, with
//! the step length and turn angle of their choice.

use vstd::prelude::*;

verus! {

/// What takes the turtle from one state to the next.
#[derive(Clone, Copy, Debug, PartialEq, Eq, Structural)]
pub enum Motion {
    /// One step ahead along the heading; the heading stays.
    Forward,
    /// The heading decreases by the turn angle; the position stays.
    TurnNegative,
    /// The heading increases by the turn angle; the position stays.
    TurnPositive,
}

/// Why a string cannot be walked.
#[derive(Clone, Copy, Debug, PartialEq, Eq, Structural)]
pub enum TurtleError {
    /// A branch was closed while none was open.
    UnbalancedBranch,
    /// The symbol is none of the turtle's commands.
    UnrecognizedSymbol(char),
}

/// How one turtle state arises: by `motion`, from the state with index `origin`.
#[derive(Clone, Copy, Debug, PartialEq, Eq)]
pub struct Step {
    /// The index of the state that the motion starts from.
    pub origin: usize,
    /// The motion that is made.
    pub motion: Motion,
}

/// The model of a [`Step`].
pub struct Leg {
    /// The index of the state that the motion starts from.
    pub origin: nat,
    /// The motion that is made.
    pub motion: Motion,
}

impl View for Step {
    type V = Leg;

    open spec fn view(&self) -> Leg {
        Leg { origin: self.origin as nat, motion: self.motion }
    }
}

/// A walked string. State 0 is the state in which the walk starts; `steps[i]` says
/// how state `i + 1` arises. `vertices` is the line list over the states: the
/// entries `2 * i` and `2 * i + 1` are the two ends of segment `i`.
#[derive(Debug)]
pub struct Drawing {
    /// How each state after the first arises, in the order of the walk.
    pub steps: Vec<Step>,
    /// The ends of the segments, two entries for each, in the order of the walk.
    pub vertices: Vec<usize>,
}

/// The model of a [`Drawing`].
pub struct Trace {
    /// How each state after the first arises, in the order of the walk.
    pub legs: Seq<Leg>,
    /// The ends of the segments, two entries for each, in the order of the walk.
    pub vertices: Seq<nat>,
}

/// The legs that a sequence of steps stands for.
pub open spec fn legs_of(steps: Seq<Step>) -> Seq<Leg> {
    Seq::new(steps.len(), |i: int| steps[i]@)
}

/// The state indices that a sequence of machine integers stands for.
pub open spec fn indices_of(v: Seq<usize>) -> Seq<nat> {
    Seq::new(v.len(), |i: int| v[i] as nat)
}

impl View for Drawing {
    type V = Trace;

    open spec fn view(&self) -> Trace {
        Trace { legs: legs_of(self.steps@), vertices: indices_of(self.vertices@) }
    }
}

/// The line list of a sequence of legs: for every forward leg, in order, the state
/// it starts from and the state it makes.
pub open spec fn line_list(legs: Seq<Leg>) -> Seq<nat>
    decreases legs.len(),
{
    if legs.len() == 0 {
        Seq::empty()
    } else if legs.last().motion == Motion::Forward {
        line_list(legs.drop_last()).push(legs.last().origin).push(legs.len())
    } else {
        line_list(legs.drop_last())
    }
}

/// The number of forward legs.
pub open spec fn forward_count(legs: Seq<Leg>) -> nat
    decreases legs.len(),
{
    if legs.len() == 0 {
        0
    } else if legs.last().motion == Motion::Forward {
        forward_count(legs.drop_last()) + 1
    } else {
        forward_count(legs.drop_last())
    }
}

impl Trace {
    /// Every state arises from an earlier one, and the vertices are the line list
    /// of the legs.
    pub open spec fn well_formed(self) -> bool {
        &&& forall|j: int| 0 <= j < self.legs.len() ==> (#[trigger] self.legs[j]).origin <= j
        &&& self.vertices == line_list(self.legs)
    }
}

/// The turtle in the middle of a walk.
pub struct Walk {
    /// The index of the state the turtle is in.
    pub current: nat,
    /// The states saved at the open branches, the innermost last.
    pub stack: Seq<nat>,
    /// How each state after the first arose.
    pub legs: Seq<Leg>,
    /// The ends of the segments drawn so far.
    pub vertices: Seq<nat>,
}

/// Whether `c` is one of the turtle's commands.
pub open spec fn is_command(c: char) -> bool {
    c == 'X' || c == 'F' || c == '-' || c == '+' || c == '[' || c == ']'
}

impl Walk {
    /// The turtle before its first symbol.
    pub open spec fn origin() -> Walk {
        Walk { current: 0, stack: Seq::empty(), legs: Seq::empty(), vertices: Seq::empty() }
    }

    /// What has been drawn.
    pub open spec fn trace(self) -> Trace {
        Trace { legs: self.legs, vertices: self.vertices }
    }

    /// The turtle after `motion`: in a new state, which arose from the current one.
    pub open spec fn moved(self, motion: Motion) -> Walk {
        Walk {
            current: self.legs.len() + 1,
            stack: self.stack,
            legs: self.legs.push(Leg { origin: self.current, motion }),
            vertices: if motion == Motion::Forward {
                self.vertices.push(self.current).push(self.legs.len() + 1)
            } else {
                self.vertices
            },
        }
    }

    /// The turtle after symbol `c`.
    pub open spec fn step(self, c: char) -> Result<Walk, TurtleError> {
        if c == 'X' {
            Ok(self)
        } else if c == 'F' {
            Ok(self.moved(Motion::Forward))
        } else if c == '-' {
            Ok(self.moved(Motion::TurnNegative))
        } else if c == '+' {
            Ok(self.moved(Motion::TurnPositive))
        } else if c == '[' {
            Ok(Walk { stack: self.stack.push(self.current), ..self })
        } else if c == ']' {
            if self.stack.len() == 0 {
                Err(TurtleError::UnbalancedBranch)
            } else {
                Ok(Walk { current: self.stack.last(), stack: self.stack.drop_last(), ..self })
            }
        } else {
            Err(TurtleError::UnrecognizedSymbol(c))
        }
    }

    /// The turtle after the symbols of `s`, from left to right, or the error of the
    /// first symbol that fails.
    pub open spec fn run(self, s: Seq<char>) -> Result<Walk, TurtleError>
        decreases s.len(),
    {
        if s.len() == 0 {
            Ok(self)
        } else {
            match self.run(s.drop_last()) {
                Ok(w) => w.step(s.last()),
                Err(e) => Err(e),
            }
        }
    }

    /// The states in reach exist, and what has been drawn is well formed.
    pub open spec fn inv(self) -> bool {
        &&& self.current <= self.legs.len()
        &&& forall|k: int| 0 <= k < self.stack.len() ==> #[trigger] self.stack[k] <= self.legs.len()
        &&& self.trace().well_formed()
    }
}

/// The walk of a whole string.
pub open spec fn interpret(s: Seq<char>) -> Result<Walk, TurtleError> {
    Walk::origin().run(s)
}

/// The branches that `s` opens less those that it closes.
pub open spec fn depth(s: Seq<char>) -> int
    decreases s.len(),
{
    if s.len() == 0 {
        0
    } else if s.last() == '[' {
        depth(s.drop_last()) + 1
    } else if s.last() == ']' {
        depth(s.drop_last()) - 1
    } else {
        depth(s.drop_last())
    }
}

/// The number of times that `c` occurs in `s`.
pub open spec fn count(s: Seq<char>, c: char) -> nat
    decreases s.len(),
{
    if s.len() == 0 {
        0
    } else if s.last() == c {
        count(s.drop_last(), c) + 1
    } else {
        count(s.drop_last(), c)
    }
}

/// Symbol `i` of `s` closes a branch where as many were closed before as opened.
pub open spec fn underflows(s: Seq<char>, i: int) -> bool {
    0 <= i < s.len() && s[i] == ']' && depth(s.take(i)) <= 0
}

/// Symbol `i` of `s` cannot be walked: it is no command, or it closes a branch
/// where none is open.
pub open spec fn fault(s: Seq<char>, i: int) -> bool {
    0 <= i < s.len() && (!is_command(s[i]) || underflows(s, i))
}

/// No symbol of `s` is at fault.
pub open spec fn faultless(s: Seq<char>) -> bool {
    forall|i: int| 0 <= i < s.len() ==> !fault(s, i)
}

/// Symbol `i` of `s` is the first one at fault.
pub open spec fn first_fault(s: Seq<char>, i: int) -> bool {
    fault(s, i) && forall|j: int| 0 <= j < i ==> !fault(s, j)
}

/// The error that a symbol at fault raises.
pub open spec fn error_of(c: char) -> TurtleError {
    if is_command(c) {
        TurtleError::UnbalancedBranch
    } else {
        TurtleError::UnrecognizedSymbol(c)
    }
}

/// Walking one more symbol continues the walk of the symbols before it.
pub proof fn lemma_run_push(w: Walk, s: Seq<char>, c: char)
    ensures
        w.run(s.push(c)) == match w.run(s) {
            Ok(v) => v.step(c),
            Err(e) => Err(e),
        },
{
    assert(s.push(c).drop_last() == s);
}

/// A walk that has failed stays failed, with the same error, whatever follows.
pub proof fn lemma_run_fails_for_good(w: Walk, s: Seq<char>, k: int)
    requires
        0 <= k <= s.len(),
        w.run(s.take(k)) is Err,
    ensures
        w.run(s) == w.run(s.take(k)),
    decreases s.len() - k,
{
    if k < s.len() {
        assert(s.take(k + 1).drop_last() == s.take(k));
        lemma_run_fails_for_good(w, s, k + 1);
    } else {
        assert(s.take(k) == s);
    }
}

/// One symbol keeps the invariant of the walk.
pub proof fn lemma_step_inv(w: Walk, c: char)
    requires
        w.inv(),
        w.step(c) is Ok,
    ensures
        w.step(c)->Ok_0.inv(),
{
    let v = w.step(c)->Ok_0;
    if c == 'F' || c == '-' || c == '+' {
        assert(v.legs.drop_last() == w.legs);
    }
}

/// A walk keeps its invariant.
pub proof fn lemma_run_inv(w: Walk, s: Seq<char>)
    requires
        w.inv(),
        w.run(s) is Ok,
    ensures
        w.run(s)->Ok_0.inv(),
    decreases s.len(),
{
    if s.len() > 0 {
        lemma_run_inv(w, s.drop_last());
        lemma_step_inv(w.run(s.drop_last())->Ok_0, s.last());
    }
}

/// The line list holds two vertices for every forward leg.
pub proof fn lemma_line_list_len(legs: Seq<Leg>)
    ensures
        line_list(legs).len() == 2 * forward_count(legs),
    decreases legs.len(),
{
    if legs.len() > 0 {
        lemma_line_list_len(legs.drop_last());
    }
}

/// A walk opens and closes its branches as the string says, and draws one forward
/// leg for every `F`.
pub proof fn lemma_run_counts(w: Walk, s: Seq<char>)
    requires
        w.run(s) is Ok,
    ensures
        w.run(s)->Ok_0.stack.len() == w.stack.len() + depth(s),
        forward_count(w.run(s)->Ok_0.legs) == forward_count(w.legs) + count(s, 'F'),
    decreases s.len(),
{
    if s.len() > 0 {
        lemma_run_counts(w, s.drop_last());
        let v = w.run(s.drop_last())->Ok_0;
        let c = s.last();
        if c == 'F' || c == '-' || c == '+' {
            assert(v.step(c)->Ok_0.legs.drop_last() == v.legs);
        }
    }
}

/// The depth of a string is the number of its opening brackets less that of its
/// closing ones.
pub proof fn lemma_depth_counts(s: Seq<char>)
    ensures
        depth(s) == count(s, '[') - count(s, ']'),
    decreases s.len(),
{
    if s.len() > 0 {
        lemma_depth_counts(s.drop_last());
    }
}

/// Whether a symbol is at fault depends on the symbols up to it alone.
pub proof fn lemma_fault_of_prefix(s: Seq<char>, i: int)
    requires
        0 <= i < s.len() - 1,
    ensures
        fault(s, i) == fault(s.drop_last(), i),
{
    assert(s.drop_last().take(i) == s.take(i));
}

/// A string without a fault can be walked to its end, and the branches left open
/// are those that it opens and does not close.
pub proof fn lemma_faultless_walk(s: Seq<char>)
    requires
        faultless(s),
    ensures
        interpret(s) is Ok,
        interpret(s)->Ok_0.stack.len() == depth(s),
    decreases s.len(),
{
    if s.len() > 0 {
        let t = s.drop_last();
        assert forall|i: int| 0 <= i < t.len() implies !fault(t, i) by {
            lemma_fault_of_prefix(s, i);
        }
        lemma_faultless_walk(t);
        assert(!fault(s, s.len() - 1));
        assert(s.take(s.len() - 1) == t);
    }
}

/// The walk of a string fails at its first fault: with `UnrecognizedSymbol` where
/// that symbol is no command, with `UnbalancedBranch` where it closes a branch
/// that is not open.
pub proof fn lemma_first_fault(s: Seq<char>, i: int)
    requires
        first_fault(s, i),
    ensures
        interpret(s) == Err::<Walk, TurtleError>(error_of(s[i])),
    decreases s.len(),
{
    let t = s.drop_last();
    if i < s.len() - 1 {
        assert forall|j: int| 0 <= j < i implies !fault(t, j) by {
            lemma_fault_of_prefix(s, j);
        }
        lemma_fault_of_prefix(s, i);
        lemma_first_fault(t, i);
    } else {
        assert forall|j: int| 0 <= j < t.len() implies !fault(t, j) by {
            lemma_fault_of_prefix(s, j);
        }
        lemma_faultless_walk(t);
        assert(s.take(s.len() - 1) == t);
    }
}

/// A string with a fault has a first one.
pub proof fn lemma_least_fault(s: Seq<char>) -> (i: int)
    requires
        !faultless(s),
    ensures
        first_fault(s, i),
    decreases s.len(),
{
    let t = s.drop_last();
    if s.len() > 0 && !faultless(t) {
        let i = lemma_least_fault(t);
        lemma_fault_of_prefix(s, i);
        assert forall|j: int| 0 <= j < i implies !fault(s, j) by {
            lemma_fault_of_prefix(s, j);
        }
        i
    } else {
        let k = choose|k: int| 0 <= k < s.len() && fault(s, k);
        assert forall|j: int| 0 <= j < s.len() - 1 implies !fault(s, j) by {
            lemma_fault_of_prefix(s, j);
        }
        s.len() - 1
    }
}

/// A string can be walked to its end if and only if none of its symbols is at fault.
pub proof fn lemma_walk_succeeds_iff_faultless(s: Seq<char>)
    ensures
        interpret(s) is Ok <==> faultless(s),
{
    if faultless(s) {
        lemma_faultless_walk(s);
    } else {
        let i = lemma_least_fault(s);
        lemma_first_fault(s, i);
    }
}

/// The line list of a walked string has even length: two vertices for every `F`.
pub proof fn lemma_vertices_even(s: Seq<char>)
    requires
        interpret(s) is Ok,
    ensures
        interpret(s)->Ok_0.vertices.len() == 2 * count(s, 'F'),
        interpret(s)->Ok_0.vertices.len() % 2 == 0,
{
    lemma_run_inv(Walk::origin(), s);
    lemma_run_counts(Walk::origin(), s);
    lemma_line_list_len(interpret(s)->Ok_0.legs);
}

/// A string that closes more branches than it opens cannot be walked to its end.
pub proof fn lemma_more_closed_than_opened(s: Seq<char>)
    requires
        count(s, ']') > count(s, '['),
    ensures
        interpret(s) is Err,
{
    lemma_depth_counts(s);
    if interpret(s) is Ok {
        lemma_run_counts(Walk::origin(), s);
    }
}

/// A string that closes more branches than it opens, and in which no symbol that
/// is no command comes before the first bracket that closes what is not open,
/// fails with `UnbalancedBranch`.
pub proof fn lemma_unbalanced_branch(s: Seq<char>)
    requires
        count(s, ']') > count(s, '['),
        forall|i: int|
            0 <= i < s.len() && !is_command(s[i]) ==> exists|j: int|
                0 <= j < i && underflows(s, j),
    ensures
        interpret(s) == Err::<Walk, TurtleError>(TurtleError::UnbalancedBranch),
{
    lemma_more_closed_than_opened(s);
    lemma_walk_succeeds_iff_faultless(s);
    let i = lemma_least_fault(s);
    lemma_first_fault(s, i);
    if !is_command(s[i]) {
        let j = choose|j: int| 0 <= j < i && underflows(s, j);
        assert(fault(s, j));
    }
}

/// Walking a string in two parts is walking its first part and going on from there.
pub proof fn lemma_run_concat(w: Walk, a: Seq<char>, b: Seq<char>)
    ensures
        w.run(a + b) == match w.run(a) {
            Ok(v) => v.run(b),
            Err(e) => Err(e),
        },
    decreases b.len(),
{
    if b.len() == 0 {
        assert(a + b == a);
    } else {
        assert((a + b).drop_last() == a + b.drop_last());
        lemma_run_concat(w, a, b.drop_last());
    }
}

/// A walk only adds to what was drawn: the legs and vertices it starts with stay
/// where they are, and the new ones come behind them, in the order of the string.
pub proof fn lemma_run_extends(w: Walk, s: Seq<char>)
    requires
        w.run(s) is Ok,
    ensures
        w.legs.len() <= w.run(s)->Ok_0.legs.len(),
        w.run(s)->Ok_0.legs.take(w.legs.len() as int) == w.legs,
        w.vertices.len() <= w.run(s)->Ok_0.vertices.len(),
        w.run(s)->Ok_0.vertices.take(w.vertices.len() as int) == w.vertices,
    decreases s.len(),
{
    if s.len() == 0 {
        assert(w.legs.take(w.legs.len() as int) == w.legs);
        assert(w.vertices.take(w.vertices.len() as int) == w.vertices);
    } else {
        lemma_run_extends(w, s.drop_last());
        let v = w.run(s.drop_last())->Ok_0;
        let u = w.run(s)->Ok_0;
        assert(u.legs.take(w.legs.len() as int) =~= v.legs.take(w.legs.len() as int));
        assert(u.vertices.take(w.vertices.len() as int) =~= v.vertices.take(
            w.vertices.len() as int,
        ));
    }
}

/// A string without a fault can be walked from any state of the turtle, and the
/// branches that were open before stay as they are.
pub proof fn lemma_faultless_walk_from(w: Walk, s: Seq<char>)
    requires
        faultless(s),
    ensures
        w.run(s) is Ok,
        w.run(s)->Ok_0.stack.len() == w.stack.len() + depth(s),
        w.run(s)->Ok_0.stack.take(w.stack.len() as int) == w.stack,
    decreases s.len(),
{
    if s.len() == 0 {
        assert(w.stack.take(w.stack.len() as int) == w.stack);
    } else {
        let t = s.drop_last();
        assert forall|i: int| 0 <= i < t.len() implies !fault(t, i) by {
            lemma_fault_of_prefix(s, i);
        }
        lemma_faultless_walk_from(w, t);
        assert(!fault(s, s.len() - 1));
        assert(s.take(s.len() - 1) == t);
        lemma_faultless_walk(t);
        let v = w.run(t)->Ok_0;
        assert(w.run(s) == v.step(s.last()));
        if s.last() == ']' {
            assert(depth(t) > 0);
            assert(v.stack.drop_last().take(w.stack.len() as int) =~= v.stack.take(
                w.stack.len() as int,
            ));
        } else if s.last() == '[' {
            assert(v.stack.push(v.current).take(w.stack.len() as int) =~= v.stack.take(
                w.stack.len() as int,
            ));
        }
    }
}

/// A branch leaves the turtle where it found it: after `[`, a string without a
/// fault that closes what it opens, and `]`, the turtle is in the state it was in
/// before the branch, with the same branches open.
pub proof fn lemma_branch_returns(w: Walk, body: Seq<char>)
    requires
        faultless(body),
        depth(body) == 0,
    ensures
        w.run(seq!['['] + body + seq![']']) is Ok,
        w.run(seq!['['] + body + seq![']'])->Ok_0.current == w.current,
        w.run(seq!['['] + body + seq![']'])->Ok_0.stack == w.stack,
{
    let open = seq!['['];
    let close = seq![']'];
    assert(open == Seq::<char>::empty().push('['));
    lemma_run_push(w, Seq::empty(), '[');
    let inside = w.run(open)->Ok_0;
    assert(inside.stack == w.stack.push(w.current));
    lemma_faultless_walk_from(inside, body);
    let done = inside.run(body)->Ok_0;
    assert(done.stack == inside.stack) by {
        assert(done.stack.take(inside.stack.len() as int) == done.stack);
    }
    assert(w.stack.push(w.current).drop_last() == w.stack);
    lemma_run_concat(w, open, body);
    assert(open + body + close == (open + body).push(']'));
    lemma_run_push(w, open + body, ']');
}

/// In a well-formed trace, segment `i` runs from the state of its first vertex to
/// the state of its second, which a forward leg makes from the first.
pub proof fn lemma_segment(t: Trace, i: int)
    requires
        t.well_formed(),
        0 <= i < forward_count(t.legs),
    ensures
        t.vertices.len() == 2 * forward_count(t.legs),
        t.vertices[2 * i] < t.vertices[2 * i + 1] <= t.legs.len(),
        t.legs[t.vertices[2 * i + 1] - 1] == (Leg {
            origin: t.vertices[2 * i],
            motion: Motion::Forward,
        }),
    decreases t.legs.len(),
{
    lemma_line_list_len(t.legs);
    let front = t.legs.drop_last();
    lemma_line_list_len(front);
    if i < forward_count(front) {
        lemma_segment(Trace { legs: front, vertices: line_list(front) }, i);
    }
}

/// Walks `s` from left to right. `X` does nothing; `F` steps ahead and draws a
/// segment; `-` and `+` turn; `[` saves the state and `]` returns to the state
/// saved last. The walk fails at the first symbol that is no command or that
/// closes a branch where none is open.
pub fn from_fractal_plant(s: String) -> (r: Result<Drawing, TurtleError>)
    ensures
        match r {
            Ok(d) => interpret(s@) is Ok && d@ == interpret(s@)->Ok_0.trace(),
            Err(e) => interpret(s@) == Err::<Walk, TurtleError>(e),
        },
        r is Ok <==> faultless(s@),
        r is Ok ==> r->Ok_0@.well_formed() && r->Ok_0@.vertices.len() == 2 * count(s@, 'F'),
{
    let mut current: usize = 0;
    let mut stack: Vec<usize> = Vec::new();
    let mut steps: Vec<Step> = Vec::new();
    let mut vertices: Vec<usize> = Vec::new();
    let ghost mut w = Walk::origin();
    proof {
        assert(s@.take(0) == Seq::<char>::empty());
        assert(legs_of(steps@) == w.legs);
        assert(indices_of(stack@) == w.stack);
        assert(indices_of(vertices@) == w.vertices);
        lemma_walk_succeeds_iff_faultless(s@);
    }
    for c in it: s.as_str().chars()
        invariant
            it.seq() == s@,
            interpret(s@) is Ok <==> faultless(s@),
            interpret(s@.take(it.index() as int)) == Ok::<Walk, TurtleError>(w),
            w.inv(),
            current == w.current,
            indices_of(stack@) == w.stack,
            legs_of(steps@) == w.legs,
            indices_of(vertices@) == w.vertices,
    {
        let ghost i = it.index() as int;
        proof {
            assert(s@.take(i + 1) == s@.take(i).push(c));
            lemma_run_push(Walk::origin(), s@.take(i), c);
            if w.step(c) is Ok {
                lemma_step_inv(w, c);
            } else {
                lemma_run_fails_for_good(Walk::origin(), s@, i + 1);
            }
        }
        if c == 'X' {
        } else if c == 'F' || c == '-' || c == '+' {
            let motion = if c == 'F' {
                Motion::Forward
            } else if c == '-' {
                Motion::TurnNegative
            } else {
                Motion::TurnPositive
            };
            steps.push(Step { origin: current, motion });
            let next = steps.len();
            if c == 'F' {
                vertices.push(current);
                vertices.push(next);
            }
            current = next;
            proof {
                w = w.moved(motion);
                assert(legs_of(steps@) == w.legs);
                assert(indices_of(vertices@) == w.vertices);
            }
        } else if c == '[' {
            stack.push(current);
            proof {
                w = Walk { stack: w.stack.push(w.current), ..w };
                assert(indices_of(stack@) == w.stack);
            }
        } else if c == ']' {
            let ghost saved_states = stack@;
            match stack.pop() {
                Some(saved) => {
                    current = saved;
                    proof {
                        assert(indices_of(saved_states).last() == saved as nat);
                        w = Walk { current: w.stack.last(), stack: w.stack.drop_last(), ..w };
                        assert(indices_of(stack@) == w.stack);
                    }
                },
                None => {
                    return Err(TurtleError::UnbalancedBranch);
                },
            }
        } else {
            return Err(TurtleError::UnrecognizedSymbol(c));
        }
    }
    proof {
        assert(s@.take(s@.len() as int) == s@);
        lemma_vertices_even(s@);
    }
    Ok(Drawing { steps, vertices })
}

} // verus!
