//! The scopes of a function body: which bindings a name reference can see,
//! and which references a binding has.

use vstd::prelude::*;
use crate::base::TextRange;

verus! {

/// A binding: its name and the range of the pattern that introduces it.
#[derive(Debug, PartialEq, Eq)]
pub struct ScopeEntry {
    pub name: String,
    pub ptr: TextRange,
}

/// A reference to a name: the text and where it stands.
#[derive(Debug, PartialEq, Eq)]
pub struct NameRef {
    pub name: String,
    pub range: TextRange,
}

/// A reference that resolves to a given binding.
#[derive(Debug, PartialEq, Eq)]
pub struct ReferenceDescriptor {
    pub range: TextRange,
    pub name: String,
}

/// One step through a function body, in source order.
#[derive(Debug, PartialEq, Eq)]
pub enum BodyEvent {
    /// A block or another construct begins whose scopes end with it.
    Enter,
    /// The construct that the matching `Enter` began is over.
    Leave,
    /// A new scope begins inside the current one: after a `let`, for a match
    /// arm, a closure, a loop pattern.
    Scope,
    /// A pattern binds a name in the current scope.
    Bind(ScopeEntry),
    /// A name is referred to in the current scope.
    Ref(NameRef),
}

/// A scope: the scope around it, and its bindings in source order.
pub struct ScopeData {
    pub parent: Option<usize>,
    pub entries: Vec<ScopeEntry>,
}

/// A scope as a mathematical value.
pub struct ScopeModel {
    pub parent: Option<usize>,
    pub entries: Seq<ScopeEntry>,
}

/// The scopes of a function as a mathematical value, together with the
/// position of the walk that builds them.
pub struct ScopesModel {
    pub scopes: Seq<ScopeModel>,
    pub refs: Seq<(NameRef, usize)>,
    pub current: usize,
    pub stack: Seq<usize>,
}

impl ScopesModel {
    /// Before the walk: the root scope alone.
    pub open spec fn start() -> ScopesModel {
        ScopesModel {
            scopes: seq![ScopeModel { parent: None, entries: Seq::empty() }],
            refs: Seq::empty(),
            current: 0,
            stack: Seq::empty(),
        }
    }

    /// The walk after one more event.
    pub open spec fn step(self, event: BodyEvent) -> ScopesModel {
        match event {
            BodyEvent::Enter => ScopesModel { stack: self.stack.push(self.current), ..self },
            BodyEvent::Leave => if self.stack.len() > 0 {
                ScopesModel { current: self.stack.last(), stack: self.stack.drop_last(), ..self }
            } else {
                self
            },
            BodyEvent::Scope => ScopesModel {
                scopes: self.scopes.push(
                    ScopeModel { parent: Some(self.current), entries: Seq::empty() },
                ),
                current: self.scopes.len() as usize,
                ..self
            },
            BodyEvent::Bind(entry) => ScopesModel {
                scopes: self.scopes.update(
                    self.current as int,
                    ScopeModel {
                        parent: self.scopes[self.current as int].parent,
                        entries: self.scopes[self.current as int].entries.push(entry),
                    },
                ),
                ..self
            },
            BodyEvent::Ref(name_ref) => ScopesModel {
                refs: self.refs.push((name_ref, self.current)),
                ..self
            },
        }
    }

    /// The walk after all of `events`.
    pub open spec fn run(events: Seq<BodyEvent>) -> ScopesModel
        decreases events.len(),
    {
        if events.len() == 0 {
            ScopesModel::start()
        } else {
            ScopesModel::run(events.drop_last()).step(events.last())
        }
    }

    /// The scopes and references of a function body, once the walk through
    /// its events is over.
    pub open spec fn of(events: Seq<BodyEvent>) -> ScopesModel {
        ScopesModel { current: 0, stack: Seq::empty(), ..ScopesModel::run(events) }
    }

    /// Every scope but the root lies inside an earlier one, and the walk
    /// stands in scopes that exist.
    pub open spec fn wf(self) -> bool {
        &&& self.scopes.len() > 0
        &&& self.scopes.len() <= usize::MAX
        &&& self.current < self.scopes.len()
        &&& forall|i: int| 0 <= i < self.stack.len() ==> (#[trigger] self.stack[i]) < self.scopes.len()
        &&& forall|i: int|
            0 <= i < self.scopes.len() ==> match (#[trigger] self.scopes[i]).parent {
                Some(p) => p < i,
                None => true,
            }
        &&& forall|i: int| 0 <= i < self.refs.len() ==> (#[trigger] self.refs[i]).1 < self.scopes.len()
    }

    /// The position of the first entry from `from` on that has the name.
    pub open spec fn first_named(entries: Seq<ScopeEntry>, name: Seq<char>, from: int) -> Option<int>
        decreases entries.len() - from,
    {
        if from < 0 || from >= entries.len() {
            None
        } else if entries[from].name@ == name {
            Some(from)
        } else {
            Self::first_named(entries, name, from + 1)
        }
    }

    /// The binding that `name` means in `scope`: the first of that name in
    /// the innermost scope, from `scope` outwards, that has one.
    pub open spec fn resolve(self, scope: int, name: Seq<char>) -> Option<ScopeEntry>
        decreases scope,
    {
        if scope < 0 || scope >= self.scopes.len() {
            None
        } else {
            match Self::first_named(self.scopes[scope].entries, name, 0) {
                Some(i) => Some(self.scopes[scope].entries[i]),
                None => match self.scopes[scope].parent {
                    Some(p) => if p < scope {
                        self.resolve(p as int, name)
                    } else {
                        None
                    },
                    None => None,
                },
            }
        }
    }

    /// The scope of the first reference that stands at `range`.
    pub open spec fn scope_for(self, range: TextRange, from: int) -> Option<usize>
        decreases self.refs.len() - from,
    {
        if from < 0 || from >= self.refs.len() {
            None
        } else if self.refs[from].0.range == range {
            Some(self.refs[from].1)
        } else {
            self.scope_for(range, from + 1)
        }
    }

    /// The binding that a reference means: resolved from the scope of the
    /// reference recorded at its range, if one was recorded.
    pub open spec fn resolve_local_name(self, name_ref: NameRef) -> Option<ScopeEntry> {
        match self.scope_for(name_ref.range, 0) {
            Some(scope) => self.resolve(scope as int, name_ref.name@),
            None => None,
        }
    }

    /// Whether the reference number `i` means the binding at `pat`.
    pub open spec fn refers_to(self, i: int, pat: TextRange) -> bool {
        match self.resolve_local_name(self.refs[i].0) {
            Some(entry) => entry.ptr == pat,
            None => false,
        }
    }

    /// The first `upto` references that mean the binding at `pat`, in source
    /// order.
    pub open spec fn refs_to(self, pat: TextRange, upto: int) -> Seq<ReferenceDescriptor>
        decreases upto,
    {
        if upto <= 0 {
            Seq::empty()
        } else {
            let rest = self.refs_to(pat, upto - 1);
            if self.refers_to(upto - 1, pat) {
                rest.push(
                    ReferenceDescriptor {
                        range: self.refs[upto - 1].0.range,
                        name: self.refs[upto - 1].0.name,
                    },
                )
            } else {
                rest
            }
        }
    }
}

/// A step keeps the walk well-formed.
pub proof fn lemma_step_wf(m: ScopesModel, event: BodyEvent)
    requires
        m.wf(),
        event is Scope ==> m.scopes.len() < usize::MAX,
    ensures
        m.step(event).wf(),
{
    let n = m.step(event);
    match event {
        BodyEvent::Leave => {
            if m.stack.len() > 0 {
                assert(m.stack[m.stack.len() - 1] < m.scopes.len());
            }
        },
        _ => {},
    }
    assert forall|i: int| 0 <= i < n.scopes.len() implies match (#[trigger] n.scopes[i]).parent {
        Some(p) => p < i,
        None => true,
    } by {
        if i < m.scopes.len() {
            assert(n.scopes[i].parent == m.scopes[i].parent);
        }
    }
    assert forall|i: int| 0 <= i < n.refs.len() implies (#[trigger] n.refs[i]).1 < n.scopes.len() by {
        if i < m.refs.len() {
            assert(n.refs[i] == m.refs[i]);
        }
    }
    assert forall|i: int| 0 <= i < n.stack.len() implies (#[trigger] n.stack[i]) < n.scopes.len() by {
        if i < m.stack.len() {
            assert(n.stack[i] == m.stack[i]);
        }
    }
}

/// The scopes of one function.
pub struct FnScopes {
    scopes: Vec<ScopeData>,
    refs: Vec<(NameRef, usize)>,
}

/// The scopes as mathematical values.
pub open spec fn scope_models(scopes: Seq<ScopeData>) -> Seq<ScopeModel> {
    Seq::new(scopes.len(), |i: int| ScopeModel { parent: scopes[i].parent, entries: scopes[i].entries@ })
}

impl FnScopes {
    /// The scopes and the references of the function, as they stand when the
    /// walk is over.
    pub closed spec fn model(&self) -> ScopesModel {
        ScopesModel {
            scopes: scope_models(self.scopes@),
            refs: self.refs@,
            current: 0,
            stack: Seq::empty(),
        }
    }

    #[verifier::type_invariant]
    closed spec fn inv(&self) -> bool {
        self.model().wf()
    }

    /// Walks the events of a function body and builds its scopes: the root
    /// scope holds what is bound before the first `Scope`.
    pub fn new(events: &Vec<BodyEvent>) -> (res: FnScopes)
        ensures
            res.model() == ScopesModel::of(events@),
            res.model().wf(),
    {
        let mut scopes: Vec<ScopeData> = Vec::new();
        scopes.push(ScopeData { parent: None, entries: Vec::new() });
        let mut refs: Vec<(NameRef, usize)> = Vec::new();
        let mut current: usize = 0;
        let mut stack: Vec<usize> = Vec::new();
        let mut i: usize = 0;
        let ghost mut m = ScopesModel::start();
        proof {
            assert(events@.take(0) =~= Seq::empty());
            assert(scope_models(scopes@) =~= m.scopes);
        }
        while i < events.len()
            invariant
                i <= events.len(),
                m == ScopesModel::run(events@.take(i as int)),
                m.wf(),
                scope_models(scopes@) == m.scopes,
                refs@ == m.refs,
                current == m.current,
                stack@ == m.stack,
            decreases events.len() - i,
        {
            let ghost before = m;
            proof {
                assert(events@.take(i as int + 1).drop_last() =~= events@.take(i as int));
                assert(events@.take(i as int + 1).last() == events@[i as int]);
                m = m.step(events@[i as int]);
            }
            match &events[i] {
                BodyEvent::Enter => {
                    stack.push(current);
                },
                BodyEvent::Leave => {
                    if stack.len() > 0 {
                        current = stack[stack.len() - 1];
                        stack.pop();
                        assert(stack@ =~= m.stack);
                    }
                },
                BodyEvent::Scope => {
                    let id = scopes.len();
                    scopes.push(ScopeData { parent: Some(current), entries: Vec::new() });
                    current = id;
                    assert(scope_models(scopes@) =~= m.scopes);
                },
                BodyEvent::Bind(entry) => {
                    let copy = ScopeEntry { name: entry.name.clone(), ptr: entry.ptr };
                    scopes[current].entries.push(copy);
                    assert(scope_models(scopes@) =~= m.scopes);
                },
                BodyEvent::Ref(name_ref) => {
                    let copy = NameRef { name: name_ref.name.clone(), range: name_ref.range };
                    refs.push((copy, current));
                },
            }
            proof {
                assert(scopes.len() == scopes@.len());
                lemma_step_wf(before, events@[i as int]);
            }
            i = i + 1;
        }
        assert(events@.take(i as int) =~= events@);
        FnScopes { scopes, refs }
    }

    /// The number of scopes; the root scope is number 0.
    pub fn len(&self) -> (n: usize)
        ensures
            n == self.model().scopes.len(),
    {
        self.scopes.len()
    }

    /// The bindings of a scope, in source order; none for a scope that does
    /// not exist.
    pub fn entries(&self, scope: usize) -> (r: Option<&Vec<ScopeEntry>>)
        ensures
            match r {
                Some(entries) => scope < self.model().scopes.len() && entries@
                    == self.model().scopes[scope as int].entries,
                None => scope >= self.model().scopes.len(),
            },
    {
        if scope < self.scopes.len() {
            Some(&self.scopes[scope].entries)
        } else {
            None
        }
    }

    /// The scope in which the reference at `range` stands.
    pub fn scope_for(&self, range: TextRange) -> (r: Option<usize>)
        ensures
            r == self.model().scope_for(range, 0),
            r matches Some(scope) ==> scope < self.model().scopes.len(),
    {
        proof {
            use_type_invariant(self);
        }
        let mut i: usize = 0;
        while i < self.refs.len()
            invariant
                i <= self.refs.len(),
                self.model().wf(),
                self.model().scope_for(range, 0) == self.model().scope_for(range, i as int),
            decreases self.refs.len() - i,
        {
            if self.refs[i].0.range == range {
                return Some(self.refs[i].1);
            }
            i = i + 1;
        }
        None
    }

    /// The binding that `name` means in `scope`.
    pub fn resolve(&self, scope: usize, name: &String) -> (r: Option<&ScopeEntry>)
        ensures
            match r {
                Some(entry) => self.model().resolve(scope as int, name@) == Some(*entry),
                None => self.model().resolve(scope as int, name@).is_none(),
            },
    {
        proof {
            use_type_invariant(self);
        }
        if scope >= self.scopes.len() {
            return None;
        }
        let mut at: usize = scope;
        loop
            invariant
                at < self.scopes.len(),
                self.model().wf(),
                self.model().resolve(scope as int, name@) == self.model().resolve(at as int, name@),
            decreases at,
        {
            let entries = &self.scopes[at].entries;
            let mut found: Option<usize> = None;
            let mut j: usize = 0;
            while j < entries.len() && found.is_none()
                invariant
                    j <= entries.len(),
                    match found {
                        Some(k) => k < entries.len() && ScopesModel::first_named(entries@, name@, 0)
                            == Some(k as int),
                        None => ScopesModel::first_named(entries@, name@, 0)
                            == ScopesModel::first_named(entries@, name@, j as int),
                    },
                decreases entries.len() - j, found.is_none() as int,
            {
                if entries[j].name == *name {
                    found = Some(j);
                } else {
                    j = j + 1;
                }
            }
            assert(entries@ == self.model().scopes[at as int].entries);
            match found {
                Some(k) => {
                    return Some(&entries[k]);
                },
                None => {},
            }
            match self.scopes[at].parent {
                Some(p) => {
                    assert(self.model().scopes[at as int].parent == Some(p));
                    at = p;
                },
                None => {
                    return None;
                },
            }
        }
    }

    /// The binding that a name reference means: the scopes are walked from
    /// the one the reference stands in outwards, and the first binding of
    /// that name counts, so that an inner binding shadows an outer one.
    pub fn resolve_local_name(&self, name_ref: &NameRef) -> (r: Option<&ScopeEntry>)
        ensures
            match r {
                Some(entry) => self.model().resolve_local_name(*name_ref) == Some(*entry),
                None => self.model().resolve_local_name(*name_ref).is_none(),
            },
    {
        match self.scope_for(name_ref.range) {
            Some(scope) => self.resolve(scope, &name_ref.name),
            None => None,
        }
    }

    /// The references that mean the binding whose pattern stands at `pat`,
    /// in source order.
    pub fn find_all_refs(&self, pat: TextRange) -> (res: Vec<ReferenceDescriptor>)
        ensures
            res@ == self.model().refs_to(pat, self.model().refs.len() as int),
    {
        let mut res: Vec<ReferenceDescriptor> = Vec::new();
        let mut i: usize = 0;
        while i < self.refs.len()
            invariant
                i <= self.refs.len(),
                res@ == self.model().refs_to(pat, i as int),
            decreases self.refs.len() - i,
        {
            let name_ref = &self.refs[i].0;
            let hit = match self.resolve_local_name(name_ref) {
                Some(entry) => entry.ptr == pat,
                None => false,
            };
            if hit {
                res.push(ReferenceDescriptor { range: name_ref.range, name: name_ref.name.clone() });
            }
            i = i + 1;
        }
        res
    }
}

} // verus!
