use vstd::prelude::*;
use vstd::string::StringExecFns;
use crate::word::{copy_word, words_eq};

verus! {

/// The map that an association list of (symbol, target) pairs stands for.
pub open spec fn trans_map(ts: Seq<(char, Vec<char>)>) -> Map<char, Seq<char>> {
    Map::new(
        |a: char| exists|i: int| 0 <= i < ts.len() && (#[trigger] ts[i]).0 == a,
        |a: char| ts[choose|i: int| 0 <= i < ts.len() && (#[trigger] ts[i]).0 == a].1@,
    )
}

/// No symbol labels two pairs of the list.
pub open spec fn keys_unique(ts: Seq<(char, Vec<char>)>) -> bool {
    forall|i: int, j: int|
        0 <= i < ts.len() && 0 <= j < ts.len() && (#[trigger] ts[i]).0 == (#[trigger] ts[j]).0
            ==> i == j
}

proof fn lemma_trans_lookup(ts: Seq<(char, Vec<char>)>, k: int)
    requires
        keys_unique(ts),
        0 <= k < ts.len(),
    ensures
        trans_map(ts).contains_key(ts[k].0),
        trans_map(ts)[ts[k].0] == ts[k].1@,
{
    let a = ts[k].0;
    assert(0 <= k < ts.len() && ts[k].0 == a);
    let i = choose|i: int| 0 <= i < ts.len() && (#[trigger] ts[i]).0 == a;
    assert(ts[i].0 == ts[k].0);
}

/// The word that a state is named by, its symbols joined by `sep`.
pub open spec fn join(w: Seq<char>, sep: Seq<char>) -> Seq<char>
    decreases w.len(),
{
    if w.len() == 0 {
        Seq::empty()
    } else if w.len() == 1 {
        seq![w[0]]
    } else {
        join(w.drop_last(), sep) + sep + seq![w.last()]
    }
}

/// Relies on `char::to_string` (through `Display`): a string holding that one character.
#[verifier::external_body]
fn char_to_string(c: char) -> (r: String)
    ensures
        r@ == seq![c],
{
    c.to_string()
}

/// A state of a deterministic automaton: its name (a word), whether it accepts,
/// and at most one outgoing transition per symbol.
#[derive(Clone, Debug)]
pub struct DfaState {
    state_id: Vec<char>,
    is_accepting: bool,
    transitions: Vec<(char, Vec<char>)>,
}

impl DfaState {
    pub closed spec fn id(&self) -> Seq<char> {
        self.state_id@
    }

    pub closed spec fn accepting(&self) -> bool {
        self.is_accepting
    }

    /// Where each symbol leads from this state.
    pub closed spec fn trans(&self) -> Map<char, Seq<char>> {
        trans_map(self.transitions@)
    }

    pub closed spec fn wf(&self) -> bool {
        keys_unique(self.transitions@)
    }

    /// The transitions in the order they were first set; `trans()` is their map.
    pub closed spec fn trans_list(&self) -> Seq<(char, Seq<char>)> {
        self.transitions@.map_values(|t: (char, Vec<char>)| (t.0, t.1@))
    }

    pub fn new(state_id: Vec<char>, is_accepting: bool) -> (r: Self)
        ensures
            r.wf(),
            r.id() == state_id@,
            r.accepting() == is_accepting,
            r.trans() == Map::<char, Seq<char>>::empty(),
    {
        let r = DfaState { state_id, is_accepting, transitions: Vec::new() };
        assert(r.trans() =~= Map::<char, Seq<char>>::empty());
        r
    }

    pub fn get_state_id(&self) -> (r: &Vec<char>)
        ensures
            r@ == self.id(),
    {
        &self.state_id
    }

    pub fn is_accepting(&self) -> (r: bool)
        ensures
            r == self.accepting(),
    {
        self.is_accepting
    }

    pub fn set_accepting(&mut self, is_accepting: bool)
        ensures
            final(self).accepting() == is_accepting,
            final(self).id() == old(self).id(),
            final(self).trans() == old(self).trans(),
            final(self).wf() == old(self).wf(),
    {
        self.is_accepting = is_accepting;
    }

    /// A copy of this state that Verus can see through.
    pub fn duplicate(&self) -> (r: Self)
        requires
            self.wf(),
        ensures
            r.id() == self.id(),
            r.accepting() == self.accepting(),
            r.trans() == self.trans(),
            r.wf(),
    {
        let mut ts: Vec<(char, Vec<char>)> = Vec::new();
        let mut i: usize = 0;
        while i < self.transitions.len()
            invariant
                i <= self.transitions@.len(),
                ts@.len() == i,
                forall|k: int| 0 <= k < i ==> (#[trigger] ts@[k]).0 == self.transitions@[k].0
                    && ts@[k].1@ == self.transitions@[k].1@,
            decreases self.transitions@.len() - i,
        {
            let t = copy_word(self.transitions[i].1.as_slice());
            ts.push((self.transitions[i].0, t));
            i += 1;
        }
        let r = DfaState { state_id: copy_word(self.state_id.as_slice()), is_accepting: self.is_accepting, transitions: ts };
        proof {
            let a = ts@;
            let b = self.transitions@;
            assert forall|x: char| #[trigger] trans_map(a).contains_key(x) == trans_map(b).contains_key(x) by {
                if trans_map(a).contains_key(x) {
                    let j = choose|j: int| 0 <= j < a.len() && (#[trigger] a[j]).0 == x;
                    assert(b[j].0 == x);
                }
                if trans_map(b).contains_key(x) {
                    let j = choose|j: int| 0 <= j < b.len() && (#[trigger] b[j]).0 == x;
                    assert(a[j].0 == x);
                }
            }
            assert forall|i: int, j: int| 0 <= i < a.len() && 0 <= j < a.len()
                && (#[trigger] a[i]).0 == (#[trigger] a[j]).0 implies i == j by {
                assert(b[i].0 == b[j].0);
            }
            assert forall|x: char| #[trigger] trans_map(a).contains_key(x)
                implies trans_map(a)[x] == trans_map(b)[x] by {
                let j = choose|j: int| 0 <= j < a.len() && (#[trigger] a[j]).0 == x;
                lemma_trans_lookup(a, j);
                lemma_trans_lookup(b, j);
            }
            assert(trans_map(a) =~= trans_map(b));
        }
        r
    }

    /// The target of the transition on `label`, if there is one.
    pub fn transition(&self, label: char) -> (r: Option<&Vec<char>>)
        requires
            self.wf(),
        ensures
            r.is_some() == self.trans().contains_key(label),
            r.is_some() ==> r.unwrap()@ == self.trans()[label],
    {
        let mut i: usize = 0;
        while i < self.transitions.len()
            invariant
                i <= self.transitions@.len(),
                keys_unique(self.transitions@),
                forall|k: int| 0 <= k < i ==> (#[trigger] self.transitions@[k]).0 != label,
            decreases self.transitions@.len() - i,
        {
            if self.transitions[i].0 == label {
                proof {
                    lemma_trans_lookup(self.transitions@, i as int);
                }
                return Some(&self.transitions[i].1);
            }
            i += 1;
        }
        None
    }

    /// Sets the transition on `label` to `target`, replacing any earlier one.
    pub fn set_transition(&mut self, label: char, target: Vec<char>)
        requires
            old(self).wf(),
        ensures
            final(self).wf(),
            final(self).id() == old(self).id(),
            final(self).accepting() == old(self).accepting(),
            final(self).trans() == old(self).trans().insert(label, target@),
    {
        let ghost ts0 = self.transitions@;
        let ghost tv = target@;
        let mut i: usize = 0;
        while i < self.transitions.len()
            invariant
                self.transitions@ == ts0,
                ts0 == old(self).transitions@,
                tv == target@,
                self.state_id@ == old(self).state_id@,
                self.is_accepting == old(self).is_accepting,
                keys_unique(ts0),
                i <= ts0.len(),
                forall|k: int| 0 <= k < i ==> (#[trigger] ts0[k]).0 != label,
            decreases ts0.len() - i,
        {
            if self.transitions[i].0 == label {
                self.transitions.set(i, (label, target));
                proof {
                    let ts1 = self.transitions@;
                    assert(ts1[i as int].1@ == tv);
                    assert(keys_unique(ts1));
                    lemma_trans_lookup(ts1, i as int);
                    assert forall|a: char| #[trigger] trans_map(ts1).contains_key(a)
                        == trans_map(ts0).insert(label, tv).contains_key(a) by {
                        if a != label {
                            if trans_map(ts0).contains_key(a) {
                                let j = choose|j: int| 0 <= j < ts0.len() && (#[trigger] ts0[j]).0 == a;
                                assert(ts1[j].0 == a);
                            }
                            if trans_map(ts1).contains_key(a) {
                                let j = choose|j: int| 0 <= j < ts1.len() && (#[trigger] ts1[j]).0 == a;
                                assert(ts0[j].0 == a);
                            }
                        }
                    }
                    assert forall|a: char| #[trigger] trans_map(ts1).contains_key(a) && a != label
                        implies trans_map(ts1)[a] == trans_map(ts0)[a] by {
                        let j = choose|j: int| 0 <= j < ts1.len() && (#[trigger] ts1[j]).0 == a;
                        assert(ts0[j].0 == a);
                        lemma_trans_lookup(ts0, j);
                        lemma_trans_lookup(ts1, j);
                    }
                    assert(trans_map(ts1) =~= trans_map(ts0).insert(label, tv));
                }
                return;
            }
            i += 1;
        }
        self.transitions.push((label, target));
        proof {
            let ts1 = self.transitions@;
            assert(keys_unique(ts1));
            lemma_trans_lookup(ts1, ts0.len() as int);
            assert forall|a: char| #[trigger] trans_map(ts1).contains_key(a)
                == trans_map(ts0).insert(label, tv).contains_key(a) by {
                if a != label {
                    if trans_map(ts0).contains_key(a) {
                        let j = choose|j: int| 0 <= j < ts0.len() && (#[trigger] ts0[j]).0 == a;
                        assert(ts1[j].0 == a);
                    }
                    if trans_map(ts1).contains_key(a) {
                        let j = choose|j: int| 0 <= j < ts1.len() && (#[trigger] ts1[j]).0 == a;
                        assert(j < ts0.len());
                        assert(ts0[j].0 == a);
                    }
                }
            }
            assert forall|a: char| #[trigger] trans_map(ts1).contains_key(a) && a != label
                implies trans_map(ts1)[a] == trans_map(ts0)[a] by {
                let j = choose|j: int| 0 <= j < ts1.len() && (#[trigger] ts1[j]).0 == a;
                assert(j < ts0.len());
                assert(ts0[j].0 == a);
                lemma_trans_lookup(ts0, j);
                lemma_trans_lookup(ts1, j);
            }
            assert(trans_map(ts1) =~= trans_map(ts0).insert(label, tv));
        }
    }

    /// The state's name: the symbols of its word joined by `sep`.
    pub fn serialize_state_id(&self, sep: &str) -> (r: String)
        ensures
            r@ == join(self.id(), sep@),
    {
        let mut out = String::new();
        let mut i: usize = 0;
        while i < self.state_id.len()
            invariant
                i <= self.state_id@.len(),
                out@ == join(self.state_id@.take(i as int), sep@),
            decreases self.state_id@.len() - i,
        {
            let c = char_to_string(self.state_id[i]);
            let ghost w = self.state_id@.take(i as int + 1);
            assert(w.drop_last() =~= self.state_id@.take(i as int));
            if i > 0 {
                out.append(sep);
            }
            out.append(c.as_str());
            proof {
                if i == 0 {
                    assert(out@ =~= seq![w[0]]);
                }
            }
            i += 1;
        }
        assert(self.state_id@.take(self.state_id@.len() as int) =~= self.state_id@);
        out
    }
}

/// What a state records: whether it accepts, and where each symbol leads.
pub open spec fn state_view(s: DfaState) -> (bool, Map<char, Seq<char>>) {
    (s.accepting(), s.trans())
}

/// No two states of the list share a name.
pub open spec fn ids_unique(ss: Seq<DfaState>) -> bool {
    forall|i: int, j: int|
        0 <= i < ss.len() && 0 <= j < ss.len() && (#[trigger] ss[i]).id() == (#[trigger] ss[j]).id()
            ==> i == j
}

/// The automaton that a list of states with distinct names stands for.
pub open spec fn states_graph(ss: Seq<DfaState>) -> Map<Seq<char>, (bool, Map<char, Seq<char>>)> {
    Map::new(
        |id: Seq<char>| exists|i: int| 0 <= i < ss.len() && (#[trigger] ss[i]).id() == id,
        |id: Seq<char>| state_view(ss[choose|i: int| 0 <= i < ss.len() && (#[trigger] ss[i]).id() == id]),
    )
}

proof fn lemma_graph_lookup(ss: Seq<DfaState>, k: int)
    requires
        ids_unique(ss),
        0 <= k < ss.len(),
    ensures
        states_graph(ss).contains_key(ss[k].id()),
        states_graph(ss)[ss[k].id()] == state_view(ss[k]),
{
    let id = ss[k].id();
    assert(0 <= k < ss.len() && ss[k].id() == id);
    let i = choose|i: int| 0 <= i < ss.len() && (#[trigger] ss[i]).id() == id;
    assert(ss[i].id() == ss[k].id());
}

/// Replacing, or adding at the end, the state named `x.id()` updates the graph at that name.
proof fn lemma_graph_change(ss0: Seq<DfaState>, ss1: Seq<DfaState>, k: int)
    requires
        ids_unique(ss0),
        0 <= k <= ss0.len(),
        k == ss0.len() ==> ss1 == ss0.push(ss1[k]) && !states_graph(ss0).contains_key(ss1[k].id()),
        k < ss0.len() ==> ss1 == ss0.update(k, ss1[k]) && ss0[k].id() == ss1[k].id(),
    ensures
        ids_unique(ss1),
        states_graph(ss1) == states_graph(ss0).insert(ss1[k].id(), state_view(ss1[k])),
{
    let x = ss1[k];
    assert forall|i: int, j: int| 0 <= i < ss1.len() && 0 <= j < ss1.len()
        && (#[trigger] ss1[i]).id() == (#[trigger] ss1[j]).id() implies i == j by {
        if k == ss0.len() {
            if i == k && j < k {
                assert(states_graph(ss0).contains_key(ss0[j].id()));
            }
            if j == k && i < k {
                assert(states_graph(ss0).contains_key(ss0[i].id()));
            }
        } else {
            assert(ss0[i].id() == ss1[i].id());
            assert(ss0[j].id() == ss1[j].id());
        }
    }
    lemma_graph_lookup(ss1, k);
    assert forall|id: Seq<char>| #[trigger] states_graph(ss1).contains_key(id)
        == states_graph(ss0).insert(x.id(), state_view(x)).contains_key(id) by {
        if id != x.id() {
            if states_graph(ss0).contains_key(id) {
                let j = choose|j: int| 0 <= j < ss0.len() && (#[trigger] ss0[j]).id() == id;
                assert(ss1[j].id() == id);
            }
            if states_graph(ss1).contains_key(id) {
                let j = choose|j: int| 0 <= j < ss1.len() && (#[trigger] ss1[j]).id() == id;
                assert(j != k);
                assert(ss0[j].id() == id);
            }
        }
    }
    assert forall|id: Seq<char>| #[trigger] states_graph(ss1).contains_key(id) && id != x.id()
        implies states_graph(ss1)[id] == states_graph(ss0)[id] by {
        let j = choose|j: int| 0 <= j < ss1.len() && (#[trigger] ss1[j]).id() == id;
        assert(j != k);
        assert(ss0[j].id() == id);
        lemma_graph_lookup(ss0, j);
        lemma_graph_lookup(ss1, j);
    }
    assert(states_graph(ss1) =~= states_graph(ss0).insert(x.id(), state_view(x)));
}

/// A state's name in the graph text: its symbols, in double quotes.
pub open spec fn dot_name(id: Seq<char>) -> Seq<char> {
    seq!['"'] + join(id, Seq::empty()) + seq!['"']
}

/// The line that lists a state; accepting states are drawn as double circles.
pub open spec fn dot_state_line(st: DfaState) -> Seq<char> {
    "    "@ + dot_name(st.id()) + if st.accepting() {
        " [shape=doublecircle];\n"@
    } else {
        ";\n"@
    }
}

pub open spec fn dot_state_lines(ss: Seq<DfaState>) -> Seq<char>
    decreases ss.len(),
{
    if ss.len() == 0 {
        Seq::empty()
    } else {
        dot_state_lines(ss.drop_last()) + dot_state_line(ss.last())
    }
}

/// The line of one transition, labelled with its symbol.
pub open spec fn dot_edge_line(from: Seq<char>, t: (char, Seq<char>)) -> Seq<char> {
    "    "@ + dot_name(from) + " -> "@ + dot_name(t.1) + " [label = \""@ + seq![t.0] + "\"];\n"@
}

pub open spec fn dot_edges_from(from: Seq<char>, ts: Seq<(char, Seq<char>)>) -> Seq<char>
    decreases ts.len(),
{
    if ts.len() == 0 {
        Seq::empty()
    } else {
        dot_edges_from(from, ts.drop_last()) + dot_edge_line(from, ts.last())
    }
}

pub open spec fn dot_edge_lines(ss: Seq<DfaState>) -> Seq<char>
    decreases ss.len(),
{
    if ss.len() == 0 {
        Seq::empty()
    } else {
        dot_edge_lines(ss.drop_last()) + dot_edges_from(ss.last().id(), ss.last().trans_list())
    }
}

/// The graph text: every state, a start marker pointing at the initial state,
/// and every transition.
pub open spec fn dot_text(ss: Seq<DfaState>, initial: Seq<char>) -> Seq<char> {
    "digraph DFA {\n"@ + dot_state_lines(ss) + "    __start__ [shape=point];\n"@
        + "    __start__ -> "@ + dot_name(initial) + ";\n"@ + dot_edge_lines(ss) + "}\n"@
}

/// The state reached from `q` by reading `w`, if every step has a transition.
pub open spec fn run(g: Map<Seq<char>, (bool, Map<char, Seq<char>>)>, q: Seq<char>, w: Seq<char>) -> Option<Seq<char>>
    decreases w.len(),
{
    if w.len() == 0 {
        Some(q)
    } else if g.contains_key(q) && g[q].1.contains_key(w[0]) {
        run(g, g[q].1[w[0]], w.drop_first())
    } else {
        None
    }
}

/// Reading `w` from the initial state ends in an accepting state.
pub open spec fn accepts(h: Automaton, w: Seq<char>) -> bool {
    match run(h.graph(), h.initial(), w) {
        Some(q) => h.graph().contains_key(q) && h.graph()[q].0,
        None => false,
    }
}

/// A deterministic finite automaton: states named by words, one initial state.
#[derive(Clone, Debug)]
pub struct Automaton {
    states: Vec<DfaState>,
    initial_state: Vec<char>,
}

impl Automaton {
    /// Each state's name mapped to whether it accepts and where its transitions lead.
    pub closed spec fn graph(&self) -> Map<Seq<char>, (bool, Map<char, Seq<char>>)> {
        states_graph(self.states@)
    }

    pub closed spec fn initial(&self) -> Seq<char> {
        self.initial_state@
    }

    pub closed spec fn wf(&self) -> bool {
        &&& ids_unique(self.states@)
        &&& forall|i: int| 0 <= i < self.states@.len() ==> (#[trigger] self.states@[i]).wf()
    }

    /// An automaton whose one state is `initial_state`, which is also its initial state.
    pub fn new(initial_state: DfaState) -> (r: Self)
        requires
            initial_state.wf(),
        ensures
            r.wf(),
            r.graph() == map![initial_state.id() => state_view(initial_state)],
            r.initial() == initial_state.id(),
    {
        let id = copy_word(initial_state.get_state_id().as_slice());
        let ghost st = initial_state;
        let mut states: Vec<DfaState> = Vec::new();
        states.push(initial_state);
        let r = Automaton { states, initial_state: id };
        proof {
            lemma_graph_lookup(r.states@, 0);
            assert(r.graph() =~= map![st.id() => state_view(st)]);
        }
        r
    }

    /// The states, each once.
    pub fn get_states(&self) -> (r: &Vec<DfaState>)
        requires
            self.wf(),
        ensures
            ids_unique(r@),
            forall|i: int| 0 <= i < r@.len() ==> (#[trigger] r@[i]).wf(),
            states_graph(r@) == self.graph(),
    {
        &self.states
    }

    /// The position of the state named `id`, if there is one.
    fn find_state(&self, id: &Vec<char>) -> (r: Option<usize>)
        requires
            self.wf(),
        ensures
            r.is_some() == self.graph().contains_key(id@),
            r.is_some() ==> r.unwrap() < self.states@.len() && self.states@[r.unwrap() as int].id() == id@,
    {
        let mut i: usize = 0;
        while i < self.states.len()
            invariant
                self.wf(),
                i <= self.states@.len(),
                forall|k: int| 0 <= k < i ==> (#[trigger] self.states@[k]).id() != id@,
            decreases self.states@.len() - i,
        {
            if words_eq(self.states[i].get_state_id(), id) {
                proof {
                    lemma_graph_lookup(self.states@, i as int);
                }
                return Some(i);
            }
            i += 1;
        }
        None
    }

    /// Adds `state` unless a state of that name is already there.
    pub fn add_state(&mut self, state: DfaState)
        requires
            old(self).wf(),
            state.wf(),
        ensures
            final(self).wf(),
            final(self).initial() == old(self).initial(),
            final(self).graph() == if old(self).graph().contains_key(state.id()) {
                old(self).graph()
            } else {
                old(self).graph().insert(state.id(), state_view(state))
            },
    {
        match self.find_state(state.get_state_id()) {
            Some(_) => {},
            None => {
                let ghost ss0 = self.states@;
                let ghost st = state;
                self.states.push(state);
                proof {
                    lemma_graph_change(ss0, self.states@, ss0.len() as int);
                    assert(self.states@[ss0.len() as int] == st);
                }
            },
        }
    }

    /// Sets the transition of `from` on `transition_label` to `to`, adding either
    /// state first where no state of its name is there yet.
    pub fn add_transition(&mut self, from: &DfaState, to: &DfaState, transition_label: &char)
        requires
            old(self).wf(),
            from.wf(),
            to.wf(),
        ensures
            final(self).wf(),
            final(self).initial() == old(self).initial(),
            ({
                let g1 = if old(self).graph().contains_key(from.id()) {
                    old(self).graph()
                } else {
                    old(self).graph().insert(from.id(), state_view(*from))
                };
                let g2 = if g1.contains_key(to.id()) {
                    g1
                } else {
                    g1.insert(to.id(), state_view(*to))
                };
                final(self).graph() == g2.insert(
                    from.id(),
                    (g2[from.id()].0, g2[from.id()].1.insert(*transition_label, to.id())),
                )
            }),
    {
        self.add_state(from.duplicate());
        self.add_state(to.duplicate());
        let k = self.find_state(from.get_state_id()).unwrap();
        let target = copy_word(to.get_state_id().as_slice());
        let ghost ss0 = self.states@;
        let mut st = self.states[k].duplicate();
        st.set_transition(*transition_label, target);
        self.states.set(k, st);
        proof {
            lemma_graph_lookup(ss0, k as int);
            lemma_graph_change(ss0, self.states@, k as int);
        }
    }

    /// The state named `state_id`, if there is one.
    pub fn get_state(&self, state_id: &Vec<char>) -> (r: Option<&DfaState>)
        requires
            self.wf(),
        ensures
            r.is_some() == self.graph().contains_key(state_id@),
            r.is_some() ==> r.unwrap().id() == state_id@ && r.unwrap().wf()
                && state_view(*r.unwrap()) == self.graph()[state_id@],
    {
        match self.find_state(state_id) {
            Some(k) => {
                proof {
                    lemma_graph_lookup(self.states@, k as int);
                }
                Some(&self.states[k])
            },
            None => None,
        }
    }

    /// The initial state, if a state of its name is there.
    pub fn get_initial_state(&self) -> (r: Option<&DfaState>)
        requires
            self.wf(),
        ensures
            r.is_some() == self.graph().contains_key(self.initial()),
            r.is_some() ==> r.unwrap().id() == self.initial() && r.unwrap().wf()
                && state_view(*r.unwrap()) == self.graph()[self.initial()],
    {
        self.get_state(&self.initial_state)
    }

    /// Makes the state named like `state` the initial one.
    pub fn set_initial_state(&mut self, state: &DfaState)
        ensures
            final(self).graph() == old(self).graph(),
            final(self).wf() == old(self).wf(),
            final(self).initial() == state.id(),
    {
        self.initial_state = copy_word(state.get_state_id().as_slice());
    }

    /// A copy of this automaton that Verus can see through.
    pub fn duplicate(&self) -> (r: Self)
        requires
            self.wf(),
        ensures
            r.wf(),
            r.graph() == self.graph(),
            r.initial() == self.initial(),
    {
        let mut ns: Vec<DfaState> = Vec::new();
        let mut i: usize = 0;
        while i < self.states.len()
            invariant
                self.wf(),
                i <= self.states@.len(),
                ns@.len() == i,
                forall|k: int| 0 <= k < i ==> (#[trigger] ns@[k]).id() == self.states@[k].id()
                    && state_view(ns@[k]) == state_view(self.states@[k]) && ns@[k].wf(),
            decreases self.states@.len() - i,
        {
            assert(self.states@[i as int].wf());
            ns.push(self.states[i].duplicate());
            i += 1;
        }
        let r = Automaton { states: ns, initial_state: copy_word(self.initial_state.as_slice()) };
        proof {
            let a = r.states@;
            let b = self.states@;
            assert forall|x: int, y: int| 0 <= x < a.len() && 0 <= y < a.len()
                && (#[trigger] a[x]).id() == (#[trigger] a[y]).id() implies x == y by {
                assert(b[x].id() == b[y].id());
            }
            assert forall|id: Seq<char>| #[trigger] states_graph(a).contains_key(id) == states_graph(b).contains_key(id) by {
                if states_graph(a).contains_key(id) {
                    let j = choose|j: int| 0 <= j < a.len() && (#[trigger] a[j]).id() == id;
                    assert(b[j].id() == id);
                }
                if states_graph(b).contains_key(id) {
                    let j = choose|j: int| 0 <= j < b.len() && (#[trigger] b[j]).id() == id;
                    assert(a[j].id() == id);
                }
            }
            assert forall|id: Seq<char>| #[trigger] states_graph(a).contains_key(id)
                implies states_graph(a)[id] == states_graph(b)[id] by {
                let j = choose|j: int| 0 <= j < a.len() && (#[trigger] a[j]).id() == id;
                lemma_graph_lookup(a, j);
                lemma_graph_lookup(b, j);
            }
            assert(states_graph(a) =~= states_graph(b));
        }
        r
    }

    /// The states, in the order they were added.
    pub closed spec fn state_list(&self) -> Seq<DfaState> {
        self.states@
    }

    fn push_name(out: &mut String, id: &Vec<char>)
        ensures
            final(out)@ == old(out)@ + dot_name(id@),
    {
        let name = DfaState::new(copy_word(id.as_slice()), false).serialize_state_id("");
        proof {
            reveal_strlit("");
            assert(""@ =~= Seq::<char>::empty());
        }
        out.append("\"");
        out.append(name.as_str());
        out.append("\"");
        proof {
            reveal_strlit("\"");
            assert(final(out)@ =~= old(out)@ + dot_name(id@));
        }
    }

    /// The automaton as graph text (Graphviz dot).
    pub fn to_dot(&self) -> (r: String)
        requires
            self.graph().contains_key(self.initial()),
            forall|id: Seq<char>, a: char| #[trigger] self.graph().contains_key(id)
                && #[trigger] self.graph()[id].1.contains_key(a)
                ==> self.graph().contains_key(self.graph()[id].1[a]),
        ensures
            r@ == dot_text(self.state_list(), self.initial()),
    {
        let ghost ss = self.states@;
        let mut dot = String::from_str("digraph DFA {\n");
        let ghost head = dot@;
        let mut i: usize = 0;
        while i < self.states.len()
            invariant
                ss == self.states@,
                i <= ss.len(),
                dot@ == head + dot_state_lines(ss.take(i as int)),
            decreases ss.len() - i,
        {
            let ghost before = dot@;
            let st = &self.states[i];
            dot.append("    ");
            Self::push_name(&mut dot, &st.state_id);
            if st.is_accepting {
                dot.append(" [shape=doublecircle];\n");
            } else {
                dot.append(";\n");
            }
            proof {
                assert(ss.take(i as int + 1).drop_last() =~= ss.take(i as int));
                assert(dot@ =~= before + dot_state_line(ss[i as int]));
            }
            i += 1;
        }
        dot.append("    __start__ [shape=point];\n");
        dot.append("    __start__ -> ");
        Self::push_name(&mut dot, &self.initial_state);
        dot.append(";\n");
        let ghost mid = dot@;
        assert(ss.take(ss.len() as int) =~= ss);
        let mut i: usize = 0;
        while i < self.states.len()
            invariant
                ss == self.states@,
                i <= ss.len(),
                dot@ == mid + dot_edge_lines(ss.take(i as int)),
            decreases ss.len() - i,
        {
            let st = &self.states[i];
            let ghost ts = st.trans_list();
            let ghost before = dot@;
            let mut j: usize = 0;
            while j < st.transitions.len()
                invariant
                    ss == self.states@,
                    i < ss.len(),
                    st == &ss[i as int],
                    ts == st.trans_list(),
                    j <= ts.len(),
                    dot@ == before + dot_edges_from(st.id(), ts.take(j as int)),
                decreases ts.len() - j,
            {
                let ghost before_j = dot@;
                dot.append("    ");
                Self::push_name(&mut dot, &st.state_id);
                dot.append(" -> ");
                Self::push_name(&mut dot, &st.transitions[j].1);
                dot.append(" [label = \"");
                let c = char_to_string(st.transitions[j].0);
                dot.append(c.as_str());
                dot.append("\"];\n");
                proof {
                    assert(ts.take(j as int + 1).drop_last() =~= ts.take(j as int));
                    assert(ts[j as int] == (st.transitions@[j as int].0, st.transitions@[j as int].1@));
                    assert(dot@ =~= before_j + dot_edge_line(st.id(), ts[j as int]));
                }
                j += 1;
            }
            proof {
                assert(ts.take(ts.len() as int) =~= ts);
                assert(ss.take(i as int + 1).drop_last() =~= ss.take(i as int));
                assert(dot@ =~= mid + dot_edge_lines(ss.take(i as int + 1)));
            }
            i += 1;
        }
        dot.append("}\n");
        proof {
            assert(dot@ =~= dot_text(ss, self.initial_state@));
        }
        dot
    }
}

} // verus!
