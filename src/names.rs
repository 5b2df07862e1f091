use vstd::prelude::*;
use vstd::string::StrSliceExecFns;

verus! {

/// The name of an installable package.
#[derive(Debug, Clone)]
pub struct PackageName {
    name: String,
}

/// The name of a dependency group.
#[derive(Debug, Clone)]
pub struct GroupName {
    name: String,
}

/// A dependency requirement, carried through as an atomic value.
#[derive(Debug, Clone)]
pub struct Requirement {
    text: String,
}

impl View for PackageName {
    type V = Seq<char>;

    closed spec fn view(&self) -> Seq<char> {
        self.name@
    }
}

impl View for GroupName {
    type V = Seq<char>;

    closed spec fn view(&self) -> Seq<char> {
        self.name@
    }
}

impl View for Requirement {
    type V = Seq<char>;

    closed spec fn view(&self) -> Seq<char> {
        self.text@
    }
}

/// The reserved group that holds the legacy development dependencies.
pub open spec fn dev_group() -> Seq<char> {
    seq!['d', 'e', 'v']
}

/// The names of a sequence of packages.
pub open spec fn package_names(s: Seq<PackageName>) -> Seq<Seq<char>> {
    s.map_values(|p: PackageName| p@)
}

/// The names of a sequence of groups.
pub open spec fn group_names(s: Seq<GroupName>) -> Seq<Seq<char>> {
    s.map_values(|g: GroupName| g@)
}

/// The text of a sequence of requirements.
pub open spec fn requirement_texts(s: Seq<Requirement>) -> Seq<Seq<char>> {
    s.map_values(|r: Requirement| r@)
}

/// `a` comes before `b` in lexicographic order over characters (code points).
pub open spec fn name_lt(a: Seq<char>, b: Seq<char>) -> bool
    decreases a.len(),
{
    if b.len() == 0 {
        false
    } else if a.len() == 0 {
        true
    } else if a[0] != b[0] {
        (a[0] as u32) < (b[0] as u32)
    } else {
        name_lt(a.drop_first(), b.drop_first())
    }
}

/// No name comes before itself.
pub proof fn lemma_name_lt_irreflexive(a: Seq<char>)
    ensures
        !name_lt(a, a),
    decreases a.len(),
{
    if a.len() > 0 {
        lemma_name_lt_irreflexive(a.drop_first());
    }
}

/// The order of names is transitive.
pub proof fn lemma_name_lt_transitive(a: Seq<char>, b: Seq<char>, c: Seq<char>)
    requires
        name_lt(a, b),
        name_lt(b, c),
    ensures
        name_lt(a, c),
    decreases a.len(),
{
    if a.len() > 0 && a[0] == b[0] && b[0] == c[0] {
        lemma_name_lt_transitive(a.drop_first(), b.drop_first(), c.drop_first());
    }
}

/// Compares `a` and `b` character by character: negative where `a` comes first, positive where
/// `b` does, zero where they are equal.
pub fn compare_names(a: &str, b: &str) -> (r: i8)
    ensures
        r == 0 <==> a@ == b@,
        r < 0 <==> name_lt(a@, b@),
        r > 0 <==> name_lt(b@, a@),
{
    let la = a.unicode_len();
    let lb = b.unicode_len();
    let mut i: usize = 0;
    proof {
        lemma_name_lt_irreflexive(a@);
        lemma_name_lt_irreflexive(b@);
        assert(a@.skip(0) =~= a@);
        assert(b@.skip(0) =~= b@);
    }
    while i < la && i < lb
        invariant
            la == a@.len(),
            lb == b@.len(),
            i <= la,
            i <= lb,
            forall|j: int| 0 <= j < i ==> a@[j] == b@[j],
            name_lt(a@, b@) == name_lt(a@.skip(i as int), b@.skip(i as int)),
            name_lt(b@, a@) == name_lt(b@.skip(i as int), a@.skip(i as int)),
        decreases la - i,
    {
        let ca = a.get_char(i);
        let cb = b.get_char(i);
        let ghost sa = a@.skip(i as int);
        let ghost sb = b@.skip(i as int);
        proof {
            assert(sa[0] == ca);
            assert(sb[0] == cb);
        }
        if ca != cb {
            proof {
                assert(a@ != b@);
            }
            if (ca as u32) < (cb as u32) {
                return -1;
            } else {
                return 1;
            }
        }
        proof {
            assert(sa.drop_first() =~= a@.skip(i + 1));
            assert(sb.drop_first() =~= b@.skip(i + 1));
        }
        i = i + 1;
    }
    proof {
        assert(a@.skip(i as int).len() == la - i);
        assert(b@.skip(i as int).len() == lb - i);
    }
    if la < lb {
        proof {
            assert(a@ != b@);
        }
        -1
    } else if lb < la {
        proof {
            assert(a@ != b@);
        }
        1
    } else {
        proof {
            assert(a@ =~= b@);
        }
        0
    }
}

impl PackageName {
    pub fn new(name: &str) -> (r: PackageName)
        ensures
            r@ == name@,
    {
        PackageName { name: name.to_owned() }
    }

    pub fn as_str(&self) -> (r: &str)
        ensures
            r@ == self@,
    {
        self.name.as_str()
    }

    pub fn same(&self, other: &PackageName) -> (r: bool)
        ensures
            r == (self@ == other@),
    {
        self.name == other.name
    }

    /// A copy with the same name.
    pub fn duplicate(&self) -> (r: PackageName)
        ensures
            r@ == self@,
    {
        PackageName { name: self.name.clone() }
    }
}

impl GroupName {
    pub fn new(name: &str) -> (r: GroupName)
        ensures
            r@ == name@,
    {
        GroupName { name: name.to_owned() }
    }

    /// The reserved `dev` group, which receives the legacy development dependencies.
    pub fn dev() -> (r: GroupName)
        ensures
            r@ == dev_group(),
    {
        proof {
            reveal_strlit("dev");
        }
        GroupName::new("dev")
    }

    pub fn as_str(&self) -> (r: &str)
        ensures
            r@ == self@,
    {
        self.name.as_str()
    }

    pub fn same(&self, other: &GroupName) -> (r: bool)
        ensures
            r == (self@ == other@),
    {
        self.name == other.name
    }

    /// Compares two group names: negative, zero or positive as `self` comes before, equals or
    /// comes after `other`.
    pub fn compare(&self, other: &GroupName) -> (r: i8)
        ensures
            r == 0 <==> self@ == other@,
            r < 0 <==> name_lt(self@, other@),
            r > 0 <==> name_lt(other@, self@),
    {
        compare_names(self.name.as_str(), other.name.as_str())
    }

    /// A copy with the same name.
    pub fn duplicate(&self) -> (r: GroupName)
        ensures
            r@ == self@,
    {
        GroupName { name: self.name.clone() }
    }
}

impl Requirement {
    pub fn new(text: &str) -> (r: Requirement)
        ensures
            r@ == text@,
    {
        Requirement { text: text.to_owned() }
    }

    pub fn as_str(&self) -> (r: &str)
        ensures
            r@ == self@,
    {
        self.text.as_str()
    }

    /// A copy with the same text.
    pub fn duplicate(&self) -> (r: Requirement)
        ensures
            r@ == self@,
    {
        Requirement { text: self.text.clone() }
    }
}

/// Copies of each requirement of `reqs`, in order.
pub fn duplicate_requirements(reqs: &Vec<Requirement>) -> (r: Vec<Requirement>)
    ensures
        requirement_texts(r@) == requirement_texts(reqs@),
{
    let mut out: Vec<Requirement> = Vec::new();
    let mut i: usize = 0;
    while i < reqs.len()
        invariant
            i <= reqs@.len(),
            out@.len() == i,
            forall|j: int| 0 <= j < i ==> out@[j]@ == reqs@[j]@,
        decreases reqs@.len() - i,
    {
        out.push(reqs[i].duplicate());
        i = i + 1;
    }
    proof {
        assert(requirement_texts(out@) =~= requirement_texts(reqs@));
    }
    out
}

} // verus!
