use vstd::prelude::*;

use crate::names::{
    dev_group, duplicate_requirements, group_names, lemma_name_lt_irreflexive,
    lemma_name_lt_transitive, name_lt, requirement_texts, GroupName, Requirement,
};

verus! {

/// One entry of a declared dependency group.
#[derive(Debug, Clone)]
pub enum GroupEntry {
    /// A requirement, taken as it is.
    Requirement(Requirement),
    /// A reference to another group of the same table, expanded in place.
    IncludeGroup(GroupName),
}

/// What an entry of a declared group stands for.
pub enum EntryView {
    Requirement(Seq<char>),
    IncludeGroup(Seq<char>),
}

impl View for GroupEntry {
    type V = EntryView;

    open spec fn view(&self) -> EntryView {
        match self {
            GroupEntry::Requirement(r) => EntryView::Requirement(r@),
            GroupEntry::IncludeGroup(g) => EntryView::IncludeGroup(g@),
        }
    }
}

pub open spec fn entry_views(s: Seq<GroupEntry>) -> Seq<EntryView> {
    s.map_values(|e: GroupEntry| e@)
}

/// The keys of a table held as a sequence of pairs.
pub open spec fn keys<V>(s: Seq<(Seq<char>, V)>) -> Seq<Seq<char>> {
    s.map_values(|p: (Seq<char>, V)| p.0)
}

/// The value stored under `k` in a table whose keys are distinct.
pub open spec fn lookup<V>(s: Seq<(Seq<char>, V)>, k: Seq<char>) -> V {
    s[keys(s).index_of(k)].1
}

/// The keys of `s` are in strictly ascending order.
pub open spec fn sorted_keys<V>(s: Seq<(Seq<char>, V)>) -> bool {
    forall|i: int, j: int| 0 <= i < j < s.len() ==> name_lt(#[trigger] s[i].0, #[trigger] s[j].0)
}

/// A table held as a sequence of pairs, as a map from its keys.
pub open spec fn to_map<V>(s: Seq<(Seq<char>, V)>) -> Map<Seq<char>, V> {
    Map::new(|k: Seq<char>| keys(s).contains(k), |k: Seq<char>| lookup(s, k))
}

/// `m` with `l` appended to the list under `k`, or stored under a new key `k`.
pub open spec fn extend_map(
    m: Map<Seq<char>, Seq<Seq<char>>>,
    k: Seq<char>,
    l: Seq<Seq<char>>,
) -> Map<Seq<char>, Seq<Seq<char>>> {
    if m.contains_key(k) {
        m.insert(k, m[k] + l)
    } else {
        m.insert(k, l)
    }
}

proof fn lemma_index_of_key<V>(s: Seq<(Seq<char>, V)>, i: int)
    requires
        keys(s).no_duplicates(),
        0 <= i < s.len(),
    ensures
        keys(s).contains(s[i].0),
        keys(s).index_of(s[i].0) == i,
{
    let k = s[i].0;
    assert(keys(s)[i] == k);
    let j = keys(s).index_of(k);
    assert(keys(s)[j] == k);
}

proof fn lemma_sorted_distinct<V>(s: Seq<(Seq<char>, V)>)
    requires
        sorted_keys(s),
    ensures
        keys(s).no_duplicates(),
{
    assert forall|i: int, j: int| 0 <= i < s.len() && 0 <= j < s.len() && i != j implies keys(
        s,
    )[i] != keys(s)[j] by {
        lemma_name_lt_irreflexive(s[i].0);
        if i < j {
            assert(name_lt(s[i].0, s[j].0));
        } else {
            assert(name_lt(s[j].0, s[i].0));
        }
    }
}

proof fn lemma_to_map_insert<V>(s: Seq<(Seq<char>, V)>, p: int, k: Seq<char>, v: V)
    requires
        keys(s).no_duplicates(),
        !keys(s).contains(k),
        0 <= p <= s.len(),
    ensures
        keys(s.insert(p, (k, v))).no_duplicates(),
        to_map(s.insert(p, (k, v))) == to_map(s).insert(k, v),
{
    let t = s.insert(p, (k, v));
    assert(keys(t) =~= keys(s).insert(p, k));
    assert forall|i: int, j: int| 0 <= i < t.len() && 0 <= j < t.len() && i != j implies keys(
        t,
    )[i] != keys(t)[j] by {
        if i != p && j != p {
            let i0 = if i < p { i } else { i - 1 };
            let j0 = if j < p { j } else { j - 1 };
            assert(keys(t)[i] == keys(s)[i0]);
            assert(keys(t)[j] == keys(s)[j0]);
        } else if i == p {
            let j0 = if j < p { j } else { j - 1 };
            assert(keys(t)[j] == keys(s)[j0]);
        } else {
            let i0 = if i < p { i } else { i - 1 };
            assert(keys(t)[i] == keys(s)[i0]);
        }
    }
    assert forall|x: Seq<char>| #[trigger] keys(t).contains(x) <==> (keys(s).contains(x) || x == k) by {
        if keys(s).contains(x) {
            let i = keys(s).index_of(x);
            let i1 = if i < p { i } else { i + 1 };
            assert(keys(t)[i1] == x);
        }
        if x == k {
            assert(keys(t)[p] == k);
        }
        if keys(t).contains(x) && x != k {
            let i = keys(t).index_of(x);
            let i0 = if i < p { i } else { i - 1 };
            assert(keys(s)[i0] == x);
        }
    }
    assert forall|x: Seq<char>| keys(t).contains(x) implies #[trigger] lookup(t, x) == to_map(
        s,
    ).insert(k, v)[x] by {
        if x == k {
            assert(t[p].0 == k);
            lemma_index_of_key(t, p);
        } else {
            let i = keys(s).index_of(x);
            assert(keys(s)[i] == x);
            lemma_index_of_key(s, i);
            let i1 = if i < p { i } else { i + 1 };
            assert(t[i1] == s[i]);
            lemma_index_of_key(t, i1);
        }
    }
    assert(to_map(t) =~= to_map(s).insert(k, v));
}

proof fn lemma_to_map_update<V>(s: Seq<(Seq<char>, V)>, i: int, v: V)
    requires
        keys(s).no_duplicates(),
        0 <= i < s.len(),
    ensures
        keys(s.update(i, (s[i].0, v))) == keys(s),
        to_map(s.update(i, (s[i].0, v))) == to_map(s).insert(s[i].0, v),
{
    let t = s.update(i, (s[i].0, v));
    assert(keys(t) =~= keys(s));
    lemma_index_of_key(s, i);
    lemma_index_of_key(t, i);
    assert forall|x: Seq<char>| keys(t).contains(x) implies #[trigger] lookup(t, x) == to_map(
        s,
    ).insert(s[i].0, v)[x] by {
        if x != s[i].0 {
            let j = keys(s).index_of(x);
            assert(keys(s)[j] == x);
            lemma_index_of_key(s, j);
            lemma_index_of_key(t, j);
        }
    }
    assert(to_map(t) =~= to_map(s).insert(s[i].0, v));
}

/// The place of `name` among the keys of `v`, which ascend: the number of keys before it, and
/// whether the key there is `name` itself.
fn find_place<V>(v: &Vec<(GroupName, V)>, name: &GroupName) -> (r: (usize, bool))
    requires
        forall|i: int, j: int|
            0 <= i < j < v@.len() ==> name_lt(#[trigger] v@[i].0@, #[trigger] v@[j].0@),
    ensures
        r.0 <= v@.len(),
        forall|j: int| 0 <= j < r.0 ==> name_lt(#[trigger] v@[j].0@, name@),
        r.1 ==> r.0 < v@.len() && v@[r.0 as int].0@ == name@,
        !r.1 ==> forall|j: int| r.0 <= j < v@.len() ==> name_lt(name@, #[trigger] v@[j].0@),
{
    let mut p: usize = 0;
    let mut stop = false;
    while !stop && p < v.len()
        invariant
            forall|i: int, j: int|
                0 <= i < j < v@.len() ==> name_lt(#[trigger] v@[i].0@, #[trigger] v@[j].0@),
            p <= v@.len(),
            forall|j: int| 0 <= j < p ==> name_lt(#[trigger] v@[j].0@, name@),
            stop ==> p < v@.len() && !name_lt(v@[p as int].0@, name@),
        decreases v@.len() - p + (if stop { 0int } else { 1int }),
    {
        if v[p].0.compare(name) >= 0 {
            stop = true;
        } else {
            p = p + 1;
        }
    }
    proof {
        lemma_name_lt_irreflexive(name@);
    }
    if !stop {
        return (p, false);
    }
    let c = v[p].0.compare(name);
    proof {
        if c > 0 {
            assert forall|j: int| p <= j < v@.len() implies name_lt(name@, #[trigger] v@[j].0@) by {
                if j > p {
                    assert(name_lt(v@[p as int].0@, v@[j].0@));
                    lemma_name_lt_transitive(name@, v@[p as int].0@, v@[j].0@);
                }
            }
        }
    }
    (p, c == 0)
}

proof fn lemma_place_absent<V>(s: Seq<(Seq<char>, V)>, p: int, k: Seq<char>)
    requires
        0 <= p <= s.len(),
        forall|j: int| 0 <= j < p ==> name_lt(#[trigger] s[j].0, k),
        forall|j: int| p <= j < s.len() ==> name_lt(k, #[trigger] s[j].0),
    ensures
        !keys(s).contains(k),
{
    lemma_name_lt_irreflexive(k);
    assert forall|j: int| 0 <= j < s.len() implies keys(s)[j] != k by {
        if j < p {
            assert(name_lt(s[j].0, k));
        } else {
            assert(name_lt(k, s[j].0));
        }
    }
}

/// Inserting `k` at a place where every key before it is smaller and every key after it larger
/// keeps the keys ascending.
proof fn lemma_place_sorted<V>(s: Seq<(Seq<char>, V)>, p: int, k: Seq<char>, v: V)
    requires
        sorted_keys(s),
        0 <= p <= s.len(),
        forall|j: int| 0 <= j < p ==> name_lt(#[trigger] s[j].0, k),
        forall|j: int| p <= j < s.len() ==> name_lt(k, #[trigger] s[j].0),
    ensures
        sorted_keys(s.insert(p, (k, v))),
{
    let t = s.insert(p, (k, v));
    assert forall|i: int, j: int| 0 <= i < j < t.len() implies name_lt(
        #[trigger] t[i].0,
        #[trigger] t[j].0,
    ) by {
        if j < p {
            assert(t[i] == s[i] && t[j] == s[j]);
        } else if j == p {
            assert(t[i] == s[i]);
        } else if i < p {
            assert(t[i] == s[i] && t[j] == s[j - 1]);
            lemma_name_lt_transitive(s[i].0, k, s[j - 1].0);
        } else if i == p {
            assert(t[j] == s[j - 1]);
        } else {
            assert(t[i] == s[i - 1] && t[j] == s[j - 1]);
        }
    }
}

/// The dependency groups as declared: each group name with its entries, in ascending order of
/// names.
#[derive(Debug, Clone)]
pub struct DependencyGroups {
    groups: Vec<(GroupName, Vec<GroupEntry>)>,
}

impl View for DependencyGroups {
    type V = Seq<(Seq<char>, Seq<EntryView>)>;

    closed spec fn view(&self) -> Seq<(Seq<char>, Seq<EntryView>)> {
        self.groups@.map_values(|p: (GroupName, Vec<GroupEntry>)| (p.0@, entry_views(p.1@)))
    }
}

/// Position of the pair whose key is `name`.
fn find_key<V>(v: &Vec<(GroupName, V)>, name: &GroupName) -> (r: Option<usize>)
    ensures
        match r {
            Some(i) => i < v@.len() && v@[i as int].0@ == name@,
            None => forall|j: int| 0 <= j < v@.len() ==> v@[j].0@ != name@,
        },
{
    let mut i: usize = 0;
    while i < v.len()
        invariant
            i <= v@.len(),
            forall|j: int| 0 <= j < i ==> v@[j].0@ != name@,
        decreases v@.len() - i,
    {
        if v[i].0.same(name) {
            return Some(i);
        }
        i = i + 1;
    }
    None
}

impl DependencyGroups {
    /// The group names are distinct and in ascending order.
    pub closed spec fn wf(&self) -> bool {
        keys(self@).no_duplicates() && sorted_keys(self@)
    }

    pub fn new() -> (r: DependencyGroups)
        ensures
            r.wf(),
            r@ == Seq::<(Seq<char>, Seq<EntryView>)>::empty(),
    {
        let r = DependencyGroups { groups: Vec::new() };
        proof {
            assert(r@ =~= Seq::<(Seq<char>, Seq<EntryView>)>::empty());
        }
        r
    }

    pub fn len(&self) -> (r: usize)
        ensures
            r == self@.len(),
    {
        self.groups.len()
    }

    /// Declares the group `name` with `entries`, replacing an earlier declaration of it.
    pub fn insert(&mut self, name: GroupName, entries: Vec<GroupEntry>)
        requires
            old(self).wf(),
        ensures
            final(self).wf(),
            to_map(final(self)@) == to_map(old(self)@).insert(name@, entry_views(entries@)),
    {
        let ghost s = self@;
        let ghost k = name@;
        let ghost v = entry_views(entries@);
        proof {
            assert forall|i: int, j: int| 0 <= i < j < self.groups@.len() implies name_lt(
                #[trigger] self.groups@[i].0@,
                #[trigger] self.groups@[j].0@,
            ) by {
                assert(s[i].0 == self.groups@[i].0@ && s[j].0 == self.groups@[j].0@);
            }
        }
        let (p, found) = find_place(&self.groups, &name);
        proof {
            assert forall|j: int| 0 <= j < p implies name_lt(#[trigger] s[j].0, k) by {
                assert(s[j].0 == self.groups@[j].0@);
            }
            if !found {
                assert forall|j: int| p <= j < s.len() implies name_lt(k, #[trigger] s[j].0) by {
                    assert(s[j].0 == self.groups@[j].0@);
                }
            }
        }
        if found {
            proof {
                assert(s[p as int].0 == k);
                lemma_to_map_update(s, p as int, v);
            }
            self.groups.set(p, (name, entries));
            proof {
                assert(self@ =~= s.update(p as int, (k, v)));
                assert(forall|i: int| 0 <= i < s.len() ==> #[trigger] self@[i].0 == s[i].0);
            }
        } else {
            proof {
                lemma_place_absent(s, p as int, k);
                lemma_to_map_insert(s, p as int, k, v);
                lemma_place_sorted(s, p as int, k, v);
            }
            self.groups.insert(p, (name, entries));
            proof {
                assert(self@ =~= s.insert(p as int, (k, v)));
            }
        }
    }
}

/// Groups with their group references expanded: each name with its requirements.
#[derive(Debug, Clone)]
pub struct FlatDependencyGroups {
    groups: Vec<(GroupName, Vec<Requirement>)>,
}

impl View for FlatDependencyGroups {
    type V = Seq<(Seq<char>, Seq<Seq<char>>)>;

    closed spec fn view(&self) -> Seq<(Seq<char>, Seq<Seq<char>>)> {
        self.groups@.map_values(
            |p: (GroupName, Vec<Requirement>)| (p.0@, requirement_texts(p.1@)),
        )
    }
}

impl FlatDependencyGroups {
    /// The group names are distinct and in ascending order.
    pub closed spec fn wf(&self) -> bool {
        keys(self@).no_duplicates()
        && sorted_keys(self@)
    }

    pub fn new() -> (r: FlatDependencyGroups)
        ensures
            r.wf(),
            sorted_keys(r@),
            r@ == Seq::<(Seq<char>, Seq<Seq<char>>)>::empty(),
            to_map(r@) == Map::<Seq<char>, Seq<Seq<char>>>::empty(),
    {
        let r = FlatDependencyGroups { groups: Vec::new() };
        proof {
            assert(r@ =~= Seq::<(Seq<char>, Seq<Seq<char>>)>::empty());
            assert(to_map(r@) =~= Map::<Seq<char>, Seq<Seq<char>>>::empty());
        }
        r
    }

    pub fn len(&self) -> (r: usize)
        ensures
            r == self@.len(),
    {
        self.groups.len()
    }

    pub fn is_empty(&self) -> (r: bool)
        ensures
            r == (self@.len() == 0),
    {
        self.groups.len() == 0
    }

    /// The name of the `i`-th group.
    pub fn name_at(&self, i: usize) -> (r: &GroupName)
        requires
            i < self@.len(),
        ensures
            r@ == self@[i as int].0,
    {
        &self.groups[i].0
    }

    /// The requirements of the group `name`, if it is one.
    pub fn get(&self, name: &GroupName) -> (r: Option<&Vec<Requirement>>)
        requires
            self.wf(),
        ensures
            match r {
                Some(l) => keys(self@).contains(name@) && requirement_texts(l@) == lookup(
                    self@,
                    name@,
                ),
                None => !keys(self@).contains(name@),
            },
    {
        match find_key(&self.groups, name) {
            Some(i) => {
                proof {
                    assert(keys(self@)[i as int] == name@);
                    lemma_index_of_key(self@, i as int);
                }
                Some(&self.groups[i].1)
            },
            None => {
                proof {
                    assert(!keys(self@).contains(name@));
                }
                None
            },
        }
    }

    /// Appends `reqs` to the group `name`, or adds the group with `reqs` at its place in the
    /// order of names where it is new.
    pub fn insert_or_extend(&mut self, name: GroupName, reqs: Vec<Requirement>)
        requires
            old(self).wf(),
        ensures
            final(self).wf(),
            sorted_keys(final(self)@),
            to_map(final(self)@) == extend_map(to_map(old(self)@), name@, requirement_texts(reqs@)),
    {
        let ghost s = self@;
        let ghost k = name@;
        let ghost l = requirement_texts(reqs@);
        proof {
            assert forall|i: int, j: int| 0 <= i < j < self.groups@.len() implies name_lt(
                #[trigger] self.groups@[i].0@,
                #[trigger] self.groups@[j].0@,
            ) by {
                assert(s[i].0 == self.groups@[i].0@ && s[j].0 == self.groups@[j].0@);
            }
        }
        let (p, found) = find_place(&self.groups, &name);
        proof {
            assert forall|j: int| 0 <= j < p implies name_lt(#[trigger] s[j].0, k) by {
                assert(s[j].0 == self.groups@[j].0@);
            }
            if !found {
                assert forall|j: int| p <= j < s.len() implies name_lt(k, #[trigger] s[j].0) by {
                    assert(s[j].0 == self.groups@[j].0@);
                }
            }
        }
        if found {
            proof {
                assert(s[p as int].0 == k);
                lemma_index_of_key(s, p as int);
                lemma_to_map_update(s, p as int, lookup(s, k) + l);
            }
            let mut reqs = reqs;
            let mut list = duplicate_requirements(&self.groups[p].1);
            let ghost front = list@;
            let ghost back = reqs@;
            list.append(&mut reqs);
            proof {
                assert(lookup(s, k) == requirement_texts(front));
                assert(requirement_texts(list@) =~= requirement_texts(front) + requirement_texts(
                    back,
                ));
            }
            self.groups.set(p, (name, list));
            proof {
                assert(self@ =~= s.update(p as int, (k, lookup(s, k) + l)));
                assert(forall|i: int| 0 <= i < s.len() ==> #[trigger] self@[i].0 == s[i].0);
            }
        } else {
            proof {
                lemma_place_absent(s, p as int, k);
                lemma_to_map_insert(s, p as int, k, l);
                lemma_place_sorted(s, p as int, k, l);
            }
            self.groups.insert(p, (name, reqs));
            proof {
                assert(self@ =~= s.insert(p as int, (k, l)));
            }
        }
    }
}

/// Why a table of dependency groups cannot be flattened.
#[derive(Debug, Clone)]
pub enum DependencyGroupError {
    /// `parent` refers to `group`, which the table does not declare.
    UnknownGroupReference { group: GroupName, parent: GroupName },
    /// A chain of group references came back to a group that it was expanding; the chain, outermost
    /// first.
    CyclicGroupReference(Vec<GroupName>),
}

/// What a `DependencyGroupError` reports.
pub enum GroupErrorView {
    UnknownGroupReference { group: Seq<char>, parent: Seq<char> },
    CyclicGroupReference(Seq<Seq<char>>),
}

impl View for DependencyGroupError {
    type V = GroupErrorView;

    open spec fn view(&self) -> GroupErrorView {
        match self {
            DependencyGroupError::UnknownGroupReference { group, parent } => {
                GroupErrorView::UnknownGroupReference { group: group@, parent: parent@ }
            },
            DependencyGroupError::CyclicGroupReference(chain) => {
                GroupErrorView::CyclicGroupReference(group_names(chain@))
            },
        }
    }
}

/// The requirements that the entries `es` stand for, expanded depth first while the groups of
/// `stack` are being expanded (innermost last), or the first error met from left to right.
pub open spec fn expand(
    d: Seq<(Seq<char>, Seq<EntryView>)>,
    es: Seq<EntryView>,
    stack: Seq<Seq<char>>,
) -> Result<Seq<Seq<char>>, GroupErrorView>
    decreases d.len() - stack.len(), es.len(),
{
    if es.len() == 0 {
        Ok(Seq::empty())
    } else {
        match expand(d, es.drop_last(), stack) {
            Err(e) => Err(e),
            Ok(front) => match es.last() {
                EntryView::Requirement(r) => Ok(front.push(r)),
                EntryView::IncludeGroup(g) => {
                    if !keys(d).contains(g) {
                        Err(GroupErrorView::UnknownGroupReference { group: g, parent: stack.last() })
                    } else if stack.contains(g) || stack.len() >= d.len() {
                        // A chain longer than the number of groups repeats one of them.
                        Err(GroupErrorView::CyclicGroupReference(stack))
                    } else {
                        match expand(d, lookup(d, g), stack.push(g)) {
                            Err(e) => Err(e),
                            Ok(inner) => Ok(front + inner),
                        }
                    }
                },
            },
        }
    }
}

/// The requirements of the declared group `name`, its group references expanded.
pub open spec fn flatten_group(
    d: Seq<(Seq<char>, Seq<EntryView>)>,
    name: Seq<char>,
) -> Result<Seq<Seq<char>>, GroupErrorView> {
    expand(d, lookup(d, name), seq![name])
}

/// The first `n` declared groups flattened in order, or the first error.
pub open spec fn flatten_prefix(d: Seq<(Seq<char>, Seq<EntryView>)>, n: nat) -> Result<
    Seq<(Seq<char>, Seq<Seq<char>>)>,
    GroupErrorView,
>
    decreases n,
{
    if n == 0 {
        Ok(Seq::empty())
    } else {
        match flatten_prefix(d, (n - 1) as nat) {
            Err(e) => Err(e),
            Ok(done) => match flatten_group(d, d[n - 1].0) {
                Err(e) => Err(e),
                Ok(reqs) => Ok(done.push((d[n - 1].0, reqs))),
            },
        }
    }
}

/// Every declared group flattened, in the order of the table, or the first error.
pub open spec fn flatten(d: Seq<(Seq<char>, Seq<EntryView>)>) -> Result<
    Seq<(Seq<char>, Seq<Seq<char>>)>,
    GroupErrorView,
> {
    flatten_prefix(d, d.len())
}

/// The flattened groups with the legacy development dependencies merged into `dev`.
pub open spec fn merge_sources(
    d: Seq<(Seq<char>, Seq<EntryView>)>,
    dev: Option<Seq<Seq<char>>>,
) -> Result<Map<Seq<char>, Seq<Seq<char>>>, GroupErrorView> {
    match flatten(d) {
        Err(e) => Err(e),
        Ok(flat) => match dev {
            None => Ok(to_map(flat)),
            Some(l) => Ok(extend_map(to_map(flat), dev_group(), l)),
        },
    }
}

pub open spec fn requirements_result(r: Result<Vec<Requirement>, DependencyGroupError>) -> Result<
    Seq<Seq<char>>,
    GroupErrorView,
> {
    match r {
        Ok(l) => Ok(requirement_texts(l@)),
        Err(e) => Err(e@),
    }
}

/// Every declared group flattened, as a map from group names, or the first error.
pub open spec fn flatten_map(d: Seq<(Seq<char>, Seq<EntryView>)>) -> Result<
    Map<Seq<char>, Seq<Seq<char>>>,
    GroupErrorView,
> {
    match flatten(d) {
        Ok(flat) => Ok(to_map(flat)),
        Err(e) => Err(e),
    }
}

/// What a table result holds, the table as a map from group names.
pub open spec fn table_result(r: Result<FlatDependencyGroups, DependencyGroupError>) -> Result<
    Map<Seq<char>, Seq<Seq<char>>>,
    GroupErrorView,
> {
    match r {
        Ok(t) => Ok(to_map(t@)),
        Err(e) => Err(e@),
    }
}

proof fn lemma_expand_error_stays(
    d: Seq<(Seq<char>, Seq<EntryView>)>,
    es: Seq<EntryView>,
    stack: Seq<Seq<char>>,
    j: int,
    k: int,
)
    requires
        0 <= j <= k <= es.len(),
        expand(d, es.take(j), stack) is Err,
    ensures
        expand(d, es.take(k), stack) == expand(d, es.take(j), stack),
    decreases k - j,
{
    if k > j {
        lemma_expand_error_stays(d, es, stack, j, k - 1);
        assert(es.take(k).drop_last() =~= es.take(k - 1));
    }
}

proof fn lemma_flatten_error_stays(d: Seq<(Seq<char>, Seq<EntryView>)>, j: nat, k: nat)
    requires
        j <= k,
        flatten_prefix(d, j) is Err,
    ensures
        flatten_prefix(d, k) == flatten_prefix(d, j),
    decreases k - j,
{
    if k > j {
        lemma_flatten_error_stays(d, j, (k - 1) as nat);
    }
}

/// Copies of each name of `names`, in order.
fn duplicate_names(names: &Vec<GroupName>) -> (r: Vec<GroupName>)
    ensures
        group_names(r@) == group_names(names@),
{
    let mut out: Vec<GroupName> = Vec::new();
    let mut i: usize = 0;
    while i < names.len()
        invariant
            i <= names@.len(),
            out@.len() == i,
            forall|j: int| 0 <= j < i ==> out@[j]@ == names@[j]@,
        decreases names@.len() - i,
    {
        out.push(names[i].duplicate());
        i = i + 1;
    }
    proof {
        assert(group_names(out@) =~= group_names(names@));
    }
    out
}

fn contains_name(names: &Vec<GroupName>, name: &GroupName) -> (r: bool)
    ensures
        r == group_names(names@).contains(name@),
{
    let mut i: usize = 0;
    while i < names.len()
        invariant
            i <= names@.len(),
            forall|j: int| 0 <= j < i ==> names@[j]@ != name@,
        decreases names@.len() - i,
    {
        if names[i].same(name) {
            proof {
                assert(group_names(names@)[i as int] == name@);
            }
            return true;
        }
        i = i + 1;
    }
    proof {
        assert forall|j: int| 0 <= j < names@.len() implies group_names(names@)[j] != name@ by {
            assert(group_names(names@)[j] == names@[j]@);
        }
    }
    false
}

/// Expands `entries` while the groups of `stack` are being expanded.
fn expand_entries(
    groups: &DependencyGroups,
    entries: &Vec<GroupEntry>,
    stack: &mut Vec<GroupName>,
) -> (r: Result<Vec<Requirement>, DependencyGroupError>)
    requires
        groups.wf(),
        old(stack)@.len() > 0,
    ensures
        group_names(final(stack)@) == group_names(old(stack)@),
        requirements_result(r) == expand(
            groups@,
            entry_views(entries@),
            group_names(old(stack)@),
        ),
    decreases groups@.len() - old(stack)@.len(),
{
    let ghost d = groups@;
    let ghost ev = entry_views(entries@);
    let ghost sv = group_names(stack@);
    let mut acc: Vec<Requirement> = Vec::new();
    let mut i: usize = 0;
    proof {
        assert(ev.take(0) =~= Seq::<EntryView>::empty());
        assert(requirement_texts(acc@) =~= Seq::<Seq<char>>::empty());
    }
    while i < entries.len()
        invariant
            groups.wf(),
            d == groups@,
            ev == entry_views(entries@),
            sv.len() > 0,
            group_names(stack@) == sv,
            sv == group_names(old(stack)@),
            d.len() - sv.len() == groups@.len() - old(stack)@.len(),
            i <= entries@.len(),
            expand(d, ev.take(i as int), sv) == Ok::<Seq<Seq<char>>, GroupErrorView>(
                requirement_texts(acc@),
            ),
        decreases entries@.len() - i,
    {
        let ghost done = ev.take(i as int);
        proof {
            assert(ev.take(i + 1).drop_last() =~= done);
            assert(ev.take(i + 1).last() == entries@[i as int]@);
        }
        match &entries[i] {
            GroupEntry::Requirement(req) => {
                let ghost before = acc@;
                acc.push(req.duplicate());
                proof {
                    assert(requirement_texts(acc@) =~= requirement_texts(before).push(req@));
                }
            },
            GroupEntry::IncludeGroup(name) => {
                match find_key(&groups.groups, name) {
                    None => {
                        proof {
                            assert forall|j: int| 0 <= j < d.len() implies keys(d)[j] != name@ by {
                                assert(keys(d)[j] == groups.groups@[j].0@);
                            }
                            assert(!keys(d).contains(name@));
                            assert(sv.last() == stack@[stack@.len() - 1]@);
                            lemma_expand_error_stays(d, ev, sv, i + 1, ev.len() as int);
                            assert(ev.take(ev.len() as int) =~= ev);
                        }
                        let parent = stack[stack.len() - 1].duplicate();
                        return Err(
                            DependencyGroupError::UnknownGroupReference {
                                group: name.duplicate(),
                                parent,
                            },
                        );
                    },
                    Some(k) => {
                        proof {
                            assert(keys(d)[k as int] == name@);
                            lemma_index_of_key(d, k as int);
                        }
                        if contains_name(stack, name) || stack.len() >= groups.groups.len() {
                            proof {
                                lemma_expand_error_stays(d, ev, sv, i + 1, ev.len() as int);
                                assert(ev.take(ev.len() as int) =~= ev);
                            }
                            return Err(
                                DependencyGroupError::CyclicGroupReference(duplicate_names(stack)),
                            );
                        }
                        let ghost before = acc@;
                        stack.push(name.duplicate());
                        proof {
                            assert(group_names(stack@) =~= sv.push(name@));
                            assert(lookup(d, name@) == entry_views(groups.groups@[k as int].1@));
                        }
                        let inner = expand_entries(groups, &groups.groups[k].1, stack);
                        let ghost mid = stack@;
                        stack.pop();
                        proof {
                            assert(group_names(mid) == sv.push(name@));
                            assert(group_names(stack@) =~= group_names(mid).drop_last());
                            assert(group_names(stack@) =~= sv);
                        }
                        match inner {
                            Err(e) => {
                                proof {
                                    lemma_expand_error_stays(d, ev, sv, i + 1, ev.len() as int);
                                    assert(ev.take(ev.len() as int) =~= ev);
                                }
                                return Err(e);
                            },
                            Ok(reqs) => {
                                let mut reqs = reqs;
                                let ghost tail = reqs@;
                                acc.append(&mut reqs);
                                proof {
                                    assert(requirement_texts(acc@) =~= requirement_texts(before)
                                        + requirement_texts(tail));
                                }
                            },
                        }
                    },
                }
            },
        }
        i = i + 1;
    }
    proof {
        assert(ev.take(entries@.len() as int) =~= ev);
    }
    Ok(acc)
}

impl FlatDependencyGroups {
    /// Flattens every declared group: requirements are kept in place and each group reference is
    /// replaced by the requirements of the group it names, depth first. No requirement is dropped
    /// as a duplicate. Groups are taken in ascending order of names, and the first error met that
    /// way is the one reported.
    pub fn from_dependency_groups(groups: &DependencyGroups) -> (r: Result<
        FlatDependencyGroups,
        DependencyGroupError,
    >)
        requires
            groups.wf(),
        ensures
            table_result(r) == flatten_map(groups@),
            r is Ok ==> r->Ok_0.wf() && sorted_keys(r->Ok_0@),
    {
        let ghost d = groups@;
        let ghost mut acc = Seq::<(Seq<char>, Seq<Seq<char>>)>::empty();
        let mut out = FlatDependencyGroups::new();
        let mut i: usize = 0;
        proof {
            assert(keys(acc) =~= keys(d).take(0));
            assert(to_map(out@) =~= to_map(acc));
        }
        while i < groups.groups.len()
            invariant
                groups.wf(),
                d == groups@,
                i <= d.len(),
                flatten_prefix(d, i as nat) == Ok::<
                    Seq<(Seq<char>, Seq<Seq<char>>)>,
                    GroupErrorView,
                >(acc),
                keys(acc) == keys(d).take(i as int),
                keys(acc).no_duplicates(),
                out.wf(),
                to_map(out@) == to_map(acc),
            decreases d.len() - i,
        {
            let name = &groups.groups[i].0;
            let mut stack: Vec<GroupName> = Vec::new();
            stack.push(name.duplicate());
            proof {
                assert(group_names(stack@) =~= seq![name@]);
                assert(d[i as int].0 == name@);
                lemma_index_of_key(d, i as int);
            }
            let reqs = expand_entries(groups, &groups.groups[i].1, &mut stack);
            match reqs {
                Err(e) => {
                    proof {
                        lemma_flatten_error_stays(d, (i + 1) as nat, d.len());
                    }
                    return Err(e);
                },
                Ok(reqs) => {
                    let ghost k = d[i as int].0;
                    let ghost l = requirement_texts(reqs@);
                    proof {
                        assert(keys(d)[i as int] == k);
                        assert(!keys(acc).contains(k)) by {
                            if keys(acc).contains(k) {
                                let j = keys(acc).index_of(k);
                                assert(keys(d)[j] == k);
                            }
                        }
                        lemma_to_map_insert(acc, acc.len() as int, k, l);
                        assert(acc.insert(acc.len() as int, (k, l)) =~= acc.push((k, l)));
                        assert(!to_map(out@).contains_key(k));
                    }
                    out.insert_or_extend(name.duplicate(), reqs);
                    proof {
                        acc = acc.push((k, l));
                        assert(keys(d).take(i + 1) =~= keys(d).take(i as int).push(k));
                        assert(keys(acc) =~= keys(d).take(i as int).push(k));
                    }
                },
            }
            i = i + 1;
        }
        Ok(out)
    }
}

/// Flattens `groups` and merges the legacy development dependencies `dev`, where declared, into
/// the `dev` group: appended after its flattened requirements, or as a new group in its place in
/// the order of names.
pub fn merge_group_sources(groups: &DependencyGroups, dev: Option<&Vec<Requirement>>) -> (r: Result<
    FlatDependencyGroups,
    DependencyGroupError,
>)
    requires
        groups.wf(),
    ensures
        table_result(r) == merge_sources(
            groups@,
            match dev {
                Some(l) => Some(requirement_texts(l@)),
                None => None,
            },
        ),
        r is Ok ==> r->Ok_0.wf() && sorted_keys(r->Ok_0@),
{
    let mut flat = match FlatDependencyGroups::from_dependency_groups(groups) {
        Ok(flat) => flat,
        Err(e) => {
            return Err(e);
        },
    };
    match dev {
        Some(reqs) => {
            flat.insert_or_extend(GroupName::dev(), duplicate_requirements(reqs));
        },
        None => {},
    }
    Ok(flat)
}

} // verus!
