//! Resolution of bean dependencies by type: the declared names and
//! classes, the index from a class to the beans of that class, and the
//! dependency graph over declarations.
use vstd::prelude::*;
use crate::compiler::compile::{BeanSpec, BeanSpecM, DependencySpec, DependencySpecM};
use crate::runtime::registry::{DIError, DIErrorM};
use crate::runtime::toposort::graph_wf;
use crate::text::{copy_string, copy_strings, push_str, str_eq, string_of, new_string};

verus! {

/// The first name that repeats an earlier one, from index `i` on.
pub open spec fn first_dup(names: Seq<Seq<char>>, i: int) -> Option<Seq<char>>
    decreases names.len() - i,
{
    if i < 0 || i >= names.len() {
        None
    } else if names.take(i).contains(names[i]) {
        Some(names[i])
    } else {
        first_dup(names, i + 1)
    }
}

/// The names, in declaration order, of the beans whose class is `t`.
pub open spec fn type_names(names: Seq<Seq<char>>, classes: Seq<Seq<char>>, t: Seq<char>) -> Seq<
    Seq<char>,
>
    decreases names.len(),
{
    if names.len() == 0 || classes.len() == 0 {
        Seq::empty()
    } else {
        let rest = type_names(names.drop_last(), classes.drop_last(), t);
        if classes.last() == t {
            rest.push(names.last())
        } else {
            rest
        }
    }
}

/// `parts` joined with `sep` between them.
pub open spec fn join(parts: Seq<Seq<char>>, sep: Seq<char>) -> Seq<char>
    decreases parts.len(),
{
    if parts.len() == 0 {
        Seq::empty()
    } else if parts.len() == 1 {
        parts[0]
    } else {
        join(parts.drop_last(), sep) + sep + parts.last()
    }
}

/// Why a dependency of type `t` cannot be wired, if it cannot.
pub open spec fn type_error(names: Seq<Seq<char>>, classes: Seq<Seq<char>>, t: Seq<char>) -> Option<
    DIErrorM,
> {
    let ns = type_names(names, classes, t);
    if ns.len() == 0 {
        Some(DIErrorM::NoSuchBean(t))
    } else if ns.len() > 1 {
        Some(DIErrorM::Ambiguous(t, join(ns, ", "@)))
    } else {
        None
    }
}

/// The first dependency among `deps` that cannot be wired.
pub open spec fn deps_error(
    deps: Seq<DependencySpecM>,
    names: Seq<Seq<char>>,
    classes: Seq<Seq<char>>,
) -> Option<DIErrorM>
    decreases deps.len(),
{
    if deps.len() == 0 {
        None
    } else {
        match type_error(names, classes, deps[0].ty) {
            Some(e) => Some(e),
            None => deps_error(deps.drop_first(), names, classes),
        }
    }
}

/// The first dependency, over all specs in order, that cannot be wired.
pub open spec fn specs_error(specs: Seq<BeanSpecM>, names: Seq<Seq<char>>, classes: Seq<Seq<char>>) -> Option<
    DIErrorM,
>
    decreases specs.len(),
{
    if specs.len() == 0 {
        None
    } else {
        match deps_error(specs[0].dependencies, names, classes) {
            Some(e) => Some(e),
            None => specs_error(specs.drop_first(), names, classes),
        }
    }
}

/// The bean a dependency of type `t` is wired to (when exactly one bean
/// has that class).
pub open spec fn wired_name(names: Seq<Seq<char>>, classes: Seq<Seq<char>>, t: Seq<char>) -> Seq<char> {
    type_names(names, classes, t)[0]
}

/// Beans by class: `lists[i]` names the beans of class `keys[i]`.
pub struct TypeIndex {
    pub keys: Vec<String>,
    pub lists: Vec<Vec<String>>,
}

impl TypeIndex {
    /// The index matches the declarations `names` / `classes`.
    pub open spec fn indexes(&self, names: Seq<Seq<char>>, classes: Seq<Seq<char>>) -> bool {
        &&& self.keys@.len() == self.lists@.len()
        &&& forall|i: int| 0 <= i < self.keys@.len() ==> #[trigger] self.lists@[i].deep_view()
            == type_names(names, classes, self.keys@[i]@)
        &&& forall|i: int, j: int| 0 <= i < j < self.keys@.len() ==> self.keys@[i]@ != self.keys@[j]@
        &&& forall|t: Seq<char>| #[trigger] type_names(names, classes, t).len() > 0 ==> exists|i: int|
            0 <= i < self.keys@.len() && self.keys@[i]@ == t
    }

    /// The position of class `t` among the keys.
    pub fn find(&self, t: &str) -> (r: Option<usize>)
        ensures
            match r {
                Some(i) => i < self.keys@.len() && self.keys@[i as int]@ == t@,
                None => forall|i: int| 0 <= i < self.keys@.len() ==> self.keys@[i]@ != t@,
            },
    {
        let mut i: usize = 0;
        while i < self.keys.len()
            invariant
                i <= self.keys@.len(),
                forall|j: int| 0 <= j < i ==> self.keys@[j]@ != t@,
            decreases self.keys.len() - i,
        {
            if str_eq(self.keys[i].as_str(), t) {
                return Some(i);
            }
            i = i + 1;
        }
        None
    }
}

proof fn lemma_type_names_len(names: Seq<Seq<char>>, classes: Seq<Seq<char>>, t: Seq<char>)
    ensures
        type_names(names, classes, t).len() <= names.len(),
    decreases names.len(),
{
    if names.len() > 0 && classes.len() > 0 {
        lemma_type_names_len(names.drop_last(), classes.drop_last(), t);
    }
}

/// Builds the class index of the declarations.
pub fn build_type_index(names: &Vec<String>, classes: &Vec<String>) -> (r: TypeIndex)
    requires
        names@.len() == classes@.len(),
    ensures
        r.indexes(names.deep_view(), classes.deep_view()),
{
    let ghost nm = names.deep_view();
    let ghost cm = classes.deep_view();
    let mut keys: Vec<String> = Vec::new();
    let mut lists: Vec<Vec<String>> = Vec::new();
    let mut k: usize = 0;
    while k < names.len()
        invariant
            k <= names@.len(),
            names@.len() == classes@.len(),
            nm == names.deep_view(),
            cm == classes.deep_view(),
            (TypeIndex { keys, lists }).indexes(nm.take(k as int), cm.take(k as int)),
        decreases names.len() - k,
    {
        let ghost n0 = nm.take(k as int);
        let ghost c0 = cm.take(k as int);
        let ghost n1 = nm.take(k + 1);
        let ghost c1 = cm.take(k + 1);
        assert(n1.drop_last() =~= n0);
        assert(c1.drop_last() =~= c0);
        assert(n1.last() == names@[k as int]@);
        assert(c1.last() == classes@[k as int]@);
        let idx = TypeIndex { keys, lists };
        let found = idx.find(classes[k].as_str());
        keys = idx.keys;
        lists = idx.lists;
        let ghost k0 = keys@;
        let ghost l0 = lists@;
        let ghost c = c1.last();
        let ghost nn = n1.last();
        assert forall|t: Seq<char>| t != c implies #[trigger] type_names(n1, c1, t) == type_names(n0, c0, t) by {}
        assert(type_names(n1, c1, c) == type_names(n0, c0, c).push(nn));
        match found {
            Some(i) => {
                let mut l = copy_strings(&lists[i]);
                l.push(copy_string(&names[k]));
                proof {
                    assert(l.deep_view() =~= lists@[i as int].deep_view().push(names@[k as int]@));
                }
                lists.set(i, l);
                proof {
                    assert forall|j: int| 0 <= j < keys@.len() implies #[trigger] lists@[j].deep_view()
                        == type_names(n1, c1, keys@[j]@) by {
                        if j != i {
                            assert(keys@[j]@ != c);
                            assert(lists@[j] == l0[j]);
                        }
                    }
                    assert forall|t: Seq<char>| #[trigger] type_names(n1, c1, t).len() > 0 implies exists|j: int|
                        0 <= j < keys@.len() && keys@[j]@ == t by {
                        if t != c {
                            assert(type_names(n0, c0, t).len() > 0);
                        } else {
                            assert(keys@[i as int]@ == t);
                        }
                    }
                    assert(keys@ == k0);
                    let ti = TypeIndex { keys, lists };
                    assert(ti.keys@.len() == ti.lists@.len());
                    assert(forall|i: int| 0 <= i < ti.keys@.len() ==> #[trigger] ti.lists@[i].deep_view()
                        == type_names(n1, c1, ti.keys@[i]@));
                    assert(forall|i: int, j: int| 0 <= i < j < ti.keys@.len() ==> ti.keys@[i]@ != ti.keys@[j]@);
                    assert(forall|t: Seq<char>| #[trigger] type_names(n1, c1, t).len() > 0 ==> exists|i: int|
                        0 <= i < ti.keys@.len() && ti.keys@[i]@ == t);
                    assert(ti.indexes(n1, c1));
                }
            },
            None => {
                proof {
                    if type_names(n0, c0, c).len() > 0 {
                        let j = choose|j: int| 0 <= j < k0.len() && k0[j]@ == c;
                        assert(false);
                    }
                }
                keys.push(copy_string(&classes[k]));
                let mut l: Vec<String> = Vec::new();
                l.push(copy_string(&names[k]));
                proof {
                    assert(l.deep_view() =~= Seq::<Seq<char>>::empty().push(names@[k as int]@));
                    assert(type_names(n0, c0, c) =~= Seq::<Seq<char>>::empty());
                }
                let ghost ld = l.deep_view();
                lists.push(l);
                proof {
                    assert(keys@.len() == lists@.len());
                    assert forall|j: int| 0 <= j < keys@.len() implies #[trigger] lists@[j].deep_view()
                        == type_names(n1, c1, keys@[j]@) by {
                        if j < k0.len() {
                            assert(keys@[j] == k0[j]);
                            assert(lists@[j] == l0[j]);
                            assert(k0[j]@ != c);
                        } else {
                            assert(keys@[j]@ == c);
                            assert(lists@[j].deep_view() == ld);
                        }
                    }
                    assert forall|i2: int, j: int| 0 <= i2 < j < keys@.len() implies keys@[i2]@ != keys@[j]@ by {
                        if j == k0.len() {
                            assert(keys@[i2] == k0[i2]);
                        }
                    }
                    assert forall|t: Seq<char>| #[trigger] type_names(n1, c1, t).len() > 0 implies exists|j: int|
                        0 <= j < keys@.len() && keys@[j]@ == t by {
                        if t != c {
                            assert(type_names(n0, c0, t).len() > 0);
                            let j = choose|j: int| 0 <= j < k0.len() && k0[j]@ == t;
                            assert(keys@[j] == k0[j]);
                        } else {
                            assert(keys@[k0.len() as int]@ == t);
                        }
                    }
                    let ti = TypeIndex { keys, lists };
                    assert(ti.keys@.len() == ti.lists@.len());
                    assert(forall|i: int| 0 <= i < ti.keys@.len() ==> #[trigger] ti.lists@[i].deep_view()
                        == type_names(n1, c1, ti.keys@[i]@));
                    assert(forall|i: int, j: int| 0 <= i < j < ti.keys@.len() ==> ti.keys@[i]@ != ti.keys@[j]@);
                    assert(forall|t: Seq<char>| #[trigger] type_names(n1, c1, t).len() > 0 ==> exists|i: int|
                        0 <= i < ti.keys@.len() && ti.keys@[i]@ == t);
                    assert(ti.indexes(n1, c1));
                }
            },
        }
        k = k + 1;
    }
    assert(nm.take(names@.len() as int) =~= nm);
    assert(cm.take(classes@.len() as int) =~= cm);
    TypeIndex { keys, lists }
}

/// The first name that repeats an earlier one.
pub fn find_duplicate(names: &Vec<String>) -> (r: Option<String>)
    ensures
        r.deep_view() == first_dup(names.deep_view(), 0),
{
    let ghost nm = names.deep_view();
    let mut i: usize = 0;
    while i < names.len()
        invariant
            i <= names@.len(),
            nm == names.deep_view(),
            first_dup(nm, 0) == first_dup(nm, i as int),
        decreases names.len() - i,
    {
        let mut j: usize = 0;
        let mut seen = false;
        while j < i
            invariant
                j <= i < names@.len(),
                nm == names.deep_view(),
                seen == nm.take(j as int).contains(nm[i as int]),
            decreases i - j,
        {
            if !seen && str_eq(names[j].as_str(), names[i].as_str()) {
                seen = true;
                assert(nm.take(j + 1)[j as int] == nm[i as int]);
            }
            proof {
                if nm.take(j + 1).contains(nm[i as int]) && !nm.take(j as int).contains(nm[i as int]) {
                    let q = choose|q: int| 0 <= q < j + 1 && #[trigger] nm.take(j + 1)[q] == nm[i as int];
                    if q < j {
                        assert(nm.take(j as int)[q] == nm[i as int]);
                    }
                }
                if nm.take(j as int).contains(nm[i as int]) {
                    let q = choose|q: int| 0 <= q < j && #[trigger] nm.take(j as int)[q] == nm[i as int];
                    assert(nm.take(j + 1)[q] == nm[i as int]);
                }
            }
            j = j + 1;
        }
        if seen {
            return Some(copy_string(&names[i]));
        }
        i = i + 1;
    }
    None
}

/// `parts` joined with `sep`.
pub fn join_strings(parts: &Vec<String>, sep: &str) -> (r: String)
    ensures
        r@ == join(parts.deep_view(), sep@),
{
    let ghost pm = parts.deep_view();
    if parts.len() == 0 {
        return new_string();
    }
    let mut out = copy_string(&parts[0]);
    let mut i: usize = 1;
    assert(pm.take(1).drop_last() =~= Seq::<Seq<char>>::empty());
    while i < parts.len()
        invariant
            1 <= i <= parts@.len(),
            pm == parts.deep_view(),
            out@ == join(pm.take(i as int), sep@),
        decreases parts.len() - i,
    {
        push_str(&mut out, sep);
        push_str(&mut out, parts[i].as_str());
        assert(pm.take(i + 1).drop_last() =~= pm.take(i as int));
        i = i + 1;
    }
    assert(pm.take(parts@.len() as int) =~= pm);
    out
}

/// The names of the declarations, specs first, then natives.
pub open spec fn index_of(names: Seq<Seq<char>>, n: Seq<char>) -> int
    decreases names.len(),
{
    if names.len() == 0 {
        -1
    } else if names.last() == n {
        names.len() - 1
    } else {
        index_of(names.drop_last(), n)
    }
}

pub fn find_name(names: &Vec<String>, n: &String) -> (r: Option<usize>)
    ensures
        match r {
            Some(i) => i < names@.len() && names@[i as int]@ == n@ && index_of(names.deep_view(), n@)
                == i,
            None => index_of(names.deep_view(), n@) == -1,
        },
{
    let ghost nm = names.deep_view();
    let mut k: usize = names.len();
    assert(nm.take(nm.len() as int) =~= nm);
    while k > 0
        invariant
            k <= names@.len(),
            nm == names.deep_view(),
            index_of(nm, n@) == index_of(nm.take(k as int), n@),
        decreases k,
    {
        assert(nm.take(k as int).drop_last() =~= nm.take(k - 1));
        if str_eq(names[k - 1].as_str(), n.as_str()) {
            return Some(k - 1);
        }
        k = k - 1;
    }
    None
}

pub proof fn lemma_type_names_in(names: Seq<Seq<char>>, classes: Seq<Seq<char>>, t: Seq<char>, x: Seq<char>)
    requires
        type_names(names, classes, t).contains(x),
    ensures
        names.contains(x),
    decreases names.len(),
{
    if names.len() > 0 && classes.len() > 0 {
        let rest = type_names(names.drop_last(), classes.drop_last(), t);
        if classes.last() == t && x == names.last() {
            assert(names[names.len() - 1] == x);
        } else {
            if classes.last() == t {
                let j = choose|j: int| 0 <= j < rest.push(names.last()).len() && rest.push(names.last())[j] == x;
                assert(rest[j] == x);
            }
            lemma_type_names_in(names.drop_last(), classes.drop_last(), t, x);
            let j = choose|j: int| 0 <= j < names.drop_last().len() && names.drop_last()[j] == x;
            assert(names[j] == x);
        }
    }
}

pub proof fn lemma_index_of(names: Seq<Seq<char>>, x: Seq<char>)
    ensures
        names.contains(x) ==> 0 <= index_of(names, x) < names.len() && names[index_of(names, x)] == x,
        !names.contains(x) ==> index_of(names, x) == -1,
    decreases names.len(),
{
    if names.len() > 0 {
        lemma_index_of(names.drop_last(), x);
        if names.last() != x {
            if names.contains(x) {
                let j = choose|j: int| 0 <= j < names.len() && names[j] == x;
                assert(names.drop_last()[j] == x);
            }
            if names.drop_last().contains(x) {
                let j = choose|j: int| 0 <= j < names.drop_last().len() && names.drop_last()[j] == x;
                assert(names[j] == x);
            }
        } else {
            assert(names[names.len() - 1] == x);
        }
    }
}

/// The dependency graph of the specs over all declarations: node `a`
/// (spec `a`) depends on node `b` when one of its dependencies is wired to
/// the `b`-th declared name.
pub fn build_graph(
    specs: &[BeanSpec],
    names: &Vec<String>,
    classes: &Vec<String>,
    index: &TypeIndex,
) -> (r: Result<Vec<Vec<usize>>, DIError>)
    requires
        names@.len() == classes@.len(),
        specs@.len() <= names@.len(),
        index.indexes(names.deep_view(), classes.deep_view()),
    ensures
        match r {
            Err(e) => specs_error(specs.deep_view(), names.deep_view(), classes.deep_view()) == Some(
                e@,
            ),
            Ok(adj) => {
                &&& specs_error(specs.deep_view(), names.deep_view(), classes.deep_view()) is None
                &&& adj@.len() == names@.len()
                &&& graph_wf(adj.deep_view())
                &&& forall|a: int| 0 <= a < specs@.len() ==> #[trigger] adj@[a]@.len()
                    == specs@[a].dependencies@.len()
                &&& forall|a: int| specs@.len() <= a < names@.len() ==> #[trigger] adj@[a]@.len() == 0
                &&& forall|a: int, k: int|
                    0 <= a < specs@.len() && 0 <= k < specs@[a].dependencies@.len() ==> type_names(
                        names.deep_view(),
                        classes.deep_view(),
                        #[trigger] specs@[a].dependencies@[k].ty@,
                    ).len() == 1
                &&& forall|a: int, k: int|
                    0 <= a < specs@.len() && 0 <= k < specs@[a].dependencies@.len() ==> #[trigger] adj@[a]@[k] == index_of(
                        names.deep_view(),
                        wired_name(names.deep_view(), classes.deep_view(), specs@[a].dependencies@[k].ty@),
                    )
            },
        },
{
    let ghost nm = names.deep_view();
    let ghost cm = classes.deep_view();
    let ghost sm = specs.deep_view();
    let mut adj: Vec<Vec<usize>> = Vec::new();
    let mut a: usize = 0;
    assert(sm.skip(0) =~= sm);
    while a < specs.len()
        invariant
            a <= specs@.len(),
            specs@.len() <= names@.len(),
            names@.len() == classes@.len(),
            nm == names.deep_view(),
            cm == classes.deep_view(),
            sm == specs.deep_view(),
            sm.len() == specs@.len(),
            index.indexes(nm, cm),
            specs_error(sm, nm, cm) == specs_error(sm.skip(a as int), nm, cm),
            adj@.len() == a,
            forall|b: int, k: int| 0 <= b < a && 0 <= k < adj@[b]@.len() ==> #[trigger] adj@[b]@[k] < nm.len(),
            forall|b: int| 0 <= b < a ==> #[trigger] adj@[b]@.len() == specs@[b].dependencies@.len(),
            forall|b: int, k: int|
                0 <= b < a && 0 <= k < specs@[b].dependencies@.len() ==> type_names(nm, cm, #[trigger] specs@[b].dependencies@[k].ty@).len() == 1,
            forall|b: int, k: int|
                0 <= b < a && 0 <= k < specs@[b].dependencies@.len() ==> #[trigger] adj@[b]@[k] == index_of(nm, wired_name(nm, cm, specs@[b].dependencies@[k].ty@)),
        decreases specs.len() - a,
    {
        let deps = &specs[a].dependencies;
        let ghost dm = deps.deep_view();
        assert(sm.skip(a as int)[0] == specs@[a as int].deep_view());
        assert(sm.skip(a as int).drop_first() =~= sm.skip(a + 1));
        assert(dm.skip(0) =~= dm);
        let mut row: Vec<usize> = Vec::new();
        let mut k: usize = 0;
        assert(dm == sm[a as int].dependencies);
        while k < deps.len()
            invariant
                k <= deps@.len(),
                sm == specs.deep_view(),
                specs_error(sm, nm, cm) == (match deps_error(dm, nm, cm) {
                    Some(e) => Some(e),
                    None => specs_error(sm.skip(a + 1), nm, cm),
                }),
                dm == deps.deep_view(),
                dm.len() == deps@.len(),
                nm == names.deep_view(),
                cm == classes.deep_view(),
                names@.len() == classes@.len(),
                index.indexes(nm, cm),
                deps_error(dm, nm, cm) == deps_error(dm.skip(k as int), nm, cm),
                row@.len() == k,
                forall|j: int| 0 <= j < k ==> #[trigger] row@[j] < nm.len(),
                forall|j: int| 0 <= j < k ==> type_names(nm, cm, #[trigger] deps@[j].ty@).len() == 1,
                forall|j: int| 0 <= j < k ==> #[trigger] row@[j] == index_of(nm, wired_name(nm, cm, deps@[j].ty@)),
            decreases deps.len() - k,
        {
            let ty = &deps[k].ty;
            assert(dm.skip(k as int)[0] == deps@[k as int].deep_view());
            assert(dm.skip(k as int).drop_first() =~= dm.skip(k + 1));
            proof {
                lemma_type_names_len(nm, cm, ty@);
            }
            let found = index.find(ty.as_str());
            let i = match found {
                None => {
                    proof {
                        if type_names(nm, cm, ty@).len() > 0 {
                            let j = choose|j: int| 0 <= j < index.keys@.len() && index.keys@[j]@ == ty@;
                        }
                    }
                    return Err(DIError::NoSuchBean(copy_string(ty)));
                },
                Some(i) => i,
            };
            let list = &index.lists[i];
            assert(list.deep_view() == type_names(nm, cm, ty@));
            if list.len() == 0 {
                return Err(DIError::NoSuchBean(copy_string(ty)));
            }
            if list.len() > 1 {
                let joined = join_strings(list, ", ");
                return Err(DIError::Ambiguous(copy_string(ty), joined));
            }
            proof {
                assert(list.deep_view()[0] == list@[0]@);
                assert(type_names(nm, cm, ty@).contains(list@[0]@));
                lemma_type_names_in(nm, cm, ty@, list@[0]@);
                lemma_index_of(nm, list@[0]@);
            }
            let node = match find_name(names, &list[0]) {
                Some(n) => n,
                None => {
                    return Err(DIError::NoSuchBean(copy_string(ty)));
                },
            };
            let ghost r0 = row@;
            row.push(node);
            proof {
                assert(list.deep_view()[0] == list@[0]@);
                assert(wired_name(nm, cm, ty@) == list@[0]@);
                assert(row@[k as int] == index_of(nm, wired_name(nm, cm, deps@[k as int].ty@)));
                assert forall|j: int| 0 <= j < k + 1 implies #[trigger] row@[j] == index_of(nm, wired_name(nm, cm, deps@[j].ty@)) by {
                    if j < k {
                        assert(row@[j] == r0[j]);
                    }
                }
            }
            k = k + 1;
        }
        assert(dm.skip(deps@.len() as int) =~= Seq::<DependencySpecM>::empty());
        adj.push(row);
        proof {
            assert forall|b: int, kk: int| 0 <= b < a + 1 && 0 <= kk < adj@[b]@.len() implies #[trigger] adj@[b]@[kk] < nm.len() by {
                if b < a {
                }
            }
        }
        a = a + 1;
    }
    assert(sm.skip(specs@.len() as int) =~= Seq::<BeanSpecM>::empty());
    while a < names.len()
        invariant
            specs@.len() <= a <= names@.len(),
            nm == names.deep_view(),
            cm == classes.deep_view(),
            specs_error(specs.deep_view(), nm, cm) is None,
            adj@.len() == a,
            forall|b: int, k: int| 0 <= b < a && 0 <= k < adj@[b]@.len() ==> #[trigger] adj@[b]@[k] < nm.len(),
            forall|b: int| 0 <= b < specs@.len() ==> #[trigger] adj@[b]@.len() == specs@[b].dependencies@.len(),
            forall|b: int| specs@.len() <= b < a ==> #[trigger] adj@[b]@.len() == 0,
            forall|b: int, k: int|
                0 <= b < specs@.len() && 0 <= k < specs@[b].dependencies@.len() ==> type_names(nm, cm, #[trigger] specs@[b].dependencies@[k].ty@).len() == 1,
            forall|b: int, k: int|
                0 <= b < specs@.len() && 0 <= k < specs@[b].dependencies@.len() ==> #[trigger] adj@[b]@[k] == index_of(nm, wired_name(nm, cm, specs@[b].dependencies@[k].ty@)),
        decreases names.len() - a,
    {
        adj.push(Vec::new());
        a = a + 1;
    }
    proof {
        assert forall|u: int, k: int| 0 <= u < adj.deep_view().len() && 0 <= k < adj.deep_view()[u].len() implies #[trigger] adj.deep_view()[u][k] < adj.deep_view().len() by {
            assert(adj.deep_view()[u] == adj@[u]@);
        }
    }
    Ok(adj)
}

} // verus!
