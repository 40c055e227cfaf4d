//! Assembling a registry from the scan output of several source files.
use vstd::prelude::*;
use crate::compiler::ast::{ClassDecl, ClassM, lemma_dv_step, lemma_dv_skip0, push_dv};
use crate::compiler::compile::{
    BeanOrigin, BeanOriginM, BeanSpec, BeanSpecM, compiled_methods_spec, declared_bases, in_package,
    expand_factory_bean, extra_deps, has_prefix_in, scan_base_packages, strictly_sorted,
    under_scan_bases, under_scan_bases_spec,
};
use crate::runtime::registry::{BeanRegistry, DIError, DIErrorM, NativeDef, build_outcome};
use crate::text::{copy_string, str_eq};

verus! {

/// The bean definitions of all files, in order.
pub open spec fn all_specs(files: Seq<(Vec<BeanSpec>, Vec<ClassDecl>)>) -> Seq<BeanSpecM>
    decreases files.len(),
{
    if files.len() == 0 {
        Seq::empty()
    } else {
        all_specs(files.drop_last()) + files.last().0.deep_view()
    }
}

/// The classes of all files, in order.
pub open spec fn all_classes(files: Seq<(Vec<BeanSpec>, Vec<ClassDecl>)>) -> Seq<ClassM>
    decreases files.len(),
{
    if files.len() == 0 {
        Seq::empty()
    } else {
        all_classes(files.drop_last()) + files.last().1.deep_view()
    }
}

/// The class a factory method produces: the last class of that name.
pub open spec fn produced_class(classes: Seq<ClassM>, name: Seq<char>) -> Option<ClassM>
    decreases classes.len(),
{
    if classes.len() == 0 {
        None
    } else if classes.last().name == name {
        Some(classes.last())
    } else {
        produced_class(classes.drop_last(), name)
    }
}

/// A factory-method definition expanded from the class it produces;
/// `None` when no class of that name was scanned.
pub open spec fn expand_spec(s: BeanSpecM, classes: Seq<ClassM>) -> Option<BeanSpecM> {
    match s.origin {
        BeanOriginM::FactoryMethod { .. } => match produced_class(classes, s.class_name) {
            None => None,
            Some(c) => Some(
                BeanSpecM {
                    methods: compiled_methods_spec(c),
                    dependencies: s.dependencies + extra_deps(c.fields, s.dependencies, Seq::empty()),
                    ..s
                },
            ),
        },
        BeanOriginM::Class => Some(s),
    }
}

/// All definitions expanded, after `acc`; or the class name of the first
/// factory method whose class is missing.
pub open spec fn expand_all(specs: Seq<BeanSpecM>, classes: Seq<ClassM>, acc: Seq<BeanSpecM>) -> Result<
    Seq<BeanSpecM>,
    Seq<char>,
>
    decreases specs.len(),
{
    if specs.len() == 0 {
        Ok(acc)
    } else {
        match expand_spec(specs[0], classes) {
            None => Err(specs[0].class_name),
            Some(e) => expand_all(specs.drop_first(), classes, acc.push(e)),
        }
    }
}

/// `s` passes the component-scan filter that the definitions `all` declare.
pub open spec fn in_scan(s: BeanSpecM, all: Seq<BeanSpecM>) -> bool {
    let bases = declared_bases(all, Seq::empty());
    bases.len() == 0 || (s.package matches Some(p) && exists|i: int|
        0 <= i < bases.len() && in_package(#[trigger] bases[i], p))
}

/// The definitions among `specs` that pass the filter of `all`, after `acc`.
pub open spec fn scan_keep(specs: Seq<BeanSpecM>, all: Seq<BeanSpecM>, acc: Seq<BeanSpecM>) -> Seq<BeanSpecM>
    decreases specs.len(),
{
    if specs.len() == 0 {
        acc
    } else if in_scan(specs[0], all) {
        scan_keep(specs.drop_first(), all, acc.push(specs[0]))
    } else {
        scan_keep(specs.drop_first(), all, acc)
    }
}

pub proof fn lemma_has_prefix_in(bs: Seq<Seq<char>>, p: Seq<char>)
    ensures
        has_prefix_in(bs, p) <==> exists|i: int| 0 <= i < bs.len() && in_package(#[trigger] bs[i], p),
    decreases bs.len(),
{
    if bs.len() > 0 {
        lemma_has_prefix_in(bs.drop_first(), p);
        if exists|i: int| 0 <= i < bs.len() && in_package(#[trigger] bs[i], p) {
            let i = choose|i: int| 0 <= i < bs.len() && in_package(#[trigger] bs[i], p);
            if i > 0 {
                assert(bs.drop_first()[i - 1] == bs[i]);
            }
        }
        if exists|i: int| 0 <= i < bs.drop_first().len() && in_package(#[trigger] bs.drop_first()[i], p) {
            let i = choose|i: int| 0 <= i < bs.drop_first().len() && in_package(#[trigger] bs.drop_first()[i], p);
            assert(bs[i + 1] == bs.drop_first()[i]);
        }
    }
}

/// Two lists with the same elements name the same prefixes.
pub proof fn lemma_same_bases(a: Seq<Seq<char>>, b: Seq<Seq<char>>, p: Seq<char>)
    requires
        a.to_set() == b.to_set(),
    ensures
        has_prefix_in(a, p) <==> exists|i: int| 0 <= i < b.len() && in_package(#[trigger] b[i], p),
{
    lemma_has_prefix_in(a, p);
    if has_prefix_in(a, p) {
        let i = choose|i: int| 0 <= i < a.len() && in_package(#[trigger] a[i], p);
        assert(a.to_set().contains(a[i]));
        assert(b.to_set().contains(a[i]));
        let j = choose|j: int| 0 <= j < b.len() && b[j] == a[i];
        assert(in_package(b[j], p));
    }
    if exists|i: int| 0 <= i < b.len() && in_package(#[trigger] b[i], p) {
        let j = choose|j: int| 0 <= j < b.len() && in_package(#[trigger] b[j], p);
        assert(b.to_set().contains(b[j]));
        assert(a.to_set().contains(b[j]));
        let i = choose|i: int| 0 <= i < a.len() && a[i] == b[j];
        assert(in_package(a[i], p));
    }
}

fn find_produced<'a>(files: &'a [(Vec<BeanSpec>, Vec<ClassDecl>)], name: &str) -> (r: Option<&'a ClassDecl>)
    ensures
        match r {
            Some(c) => produced_class(all_classes(files@), name@) == Some(c.deep_view()),
            None => produced_class(all_classes(files@), name@) is None,
        },
{
    let ghost fs = files@;
    let mut f: usize = files.len();
    assert(fs.take(fs.len() as int) =~= fs);
    while f > 0
        invariant
            f <= fs.len(),
            fs == files@,
            produced_class(all_classes(fs), name@) == produced_class(all_classes(fs.take(f as int)), name@),
        decreases f,
    {
        let classes = &files[f - 1].1;
        let ghost before = all_classes(fs.take(f - 1));
        assert(fs.take(f as int).drop_last() =~= fs.take(f - 1));
        assert(all_classes(fs.take(f as int)) == before + classes.deep_view());
        let mut k: usize = classes.len();
        proof {
            lemma_dv_skip0(classes);
            assert(classes.deep_view().take(classes@.len() as int) =~= classes.deep_view());
        }
        while k > 0
            invariant
                k <= classes@.len(),
                fs == files@,
                classes.deep_view().len() == classes@.len(),
                produced_class(all_classes(fs), name@) == produced_class(before + classes.deep_view().take(k as int), name@),
            decreases k,
        {
            proof {
                lemma_dv_step(classes, k - 1);
                assert((before + classes.deep_view().take(k as int)).drop_last() =~= before + classes.deep_view().take(k - 1));
                assert((before + classes.deep_view().take(k as int)).last() == classes@[k - 1].deep_view());
            }
            if str_eq(classes[k - 1].name.as_str(), name) {
                assert(produced_class(before + classes.deep_view().take(k as int), name@) == Some(classes@[k - 1].deep_view()));
                return Some(&classes[k - 1]);
            }
            k = k - 1;
        }
        assert(before + classes.deep_view().take(0) =~= before);
        f = f - 1;
    }
    None
}

/// Assembles a registry from per-file scan output: expands `@Bean` factory
/// definitions against the classes of all files, applies the
/// `@ComponentScan` filter, then builds.
pub fn assemble_registry(files: &[(Vec<BeanSpec>, Vec<ClassDecl>)], natives: Vec<NativeDef>) -> (r: Result<
    BeanRegistry,
    DIError,
>)
    ensures
        match expand_all(all_specs(files@), all_classes(files@), Seq::empty()) {
            Err(n) => r matches Err(e) && e@ == DIErrorM::NoSuchBean(n),
            Ok(expanded) => build_outcome(scan_keep(expanded, expanded, Seq::empty()), natives@, r),
        },
{
    let ghost fs = files@;
    // every definition, in file order
    let mut specs: Vec<BeanSpec> = Vec::new();
    let mut f: usize = 0;
    assert(specs.deep_view() =~= all_specs(fs.take(0)));
    while f < files.len()
        invariant
            f <= fs.len(),
            fs == files@,
            specs.deep_view() == all_specs(fs.take(f as int)),
        decreases files.len() - f,
    {
        let beans = &files[f].0;
        let ghost s0 = specs.deep_view();
        let mut k: usize = 0;
        while k < beans.len()
            invariant
                k <= beans@.len(),
                specs.deep_view() == s0 + beans.deep_view().take(k as int),
            decreases beans.len() - k,
        {
            push_dv(&mut specs, beans[k].copy());
            assert(beans.deep_view().take(k + 1) =~= beans.deep_view().take(k as int).push(beans@[k as int].deep_view()));
            assert(specs.deep_view() =~= s0 + beans.deep_view().take(k + 1));
            k = k + 1;
        }
        assert(beans.deep_view().take(beans@.len() as int) =~= beans.deep_view());
        assert(fs.take(f + 1).drop_last() =~= fs.take(f as int));
        f = f + 1;
    }
    assert(fs.take(fs.len() as int) =~= fs);
    // factory definitions take their methods and fields from the produced class
    let ghost all = specs.deep_view();
    let ghost classes = all_classes(fs);
    let mut expanded: Vec<BeanSpec> = Vec::new();
    let mut i: usize = 0;
    proof {
        lemma_dv_skip0(&specs);
        assert(expanded.deep_view() =~= Seq::<BeanSpecM>::empty());
    }
    while i < specs.len()
        invariant
            i <= specs@.len(),
            fs == files@,
            all == specs.deep_view(),
            all == all_specs(fs),
            classes == all_classes(fs),
            expand_all(all, classes, Seq::empty()) == expand_all(all.skip(i as int), classes, expanded.deep_view()),
        decreases specs.len() - i,
    {
        proof {
            lemma_dv_step(&specs, i as int);
        }
        let mut s = specs[i].copy();
        match &specs[i].origin {
            BeanOrigin::FactoryMethod { .. } => {
                match find_produced(files, specs[i].class_name.as_str()) {
                    None => {
                        return Err(DIError::NoSuchBean(copy_string(&specs[i].class_name)));
                    },
                    Some(c) => {
                        expand_factory_bean(&mut s, c);
                    },
                }
            },
            BeanOrigin::Class => {},
        }
        push_dv(&mut expanded, s);
        i = i + 1;
    }
    let ghost ex = expanded.deep_view();
    assert(expand_all(all, classes, Seq::empty()) == Ok::<Seq<BeanSpecM>, Seq<char>>(ex));
    // the component-scan filter
    let es = expanded.as_slice();
    assert(es.deep_view() =~= ex);
    let bases = scan_base_packages(es);
    let mut kept: Vec<BeanSpec> = Vec::new();
    let mut j: usize = 0;
    proof {
        lemma_dv_skip0(&expanded);
        assert(kept.deep_view() =~= Seq::<BeanSpecM>::empty());
    }
    while j < expanded.len()
        invariant
            j <= expanded@.len(),
            ex == expanded.deep_view(),
            declared_bases(ex, Seq::empty()).len() == 0 ==> bases is None,
            declared_bases(ex, Seq::empty()).len() > 0 ==> (bases matches Some(v) && v.deep_view().to_set()
                == declared_bases(ex, Seq::empty()).to_set()),
            scan_keep(ex, ex, Seq::empty()) == scan_keep(ex.skip(j as int), ex, kept.deep_view()),
        decreases expanded.len() - j,
    {
        proof {
            lemma_dv_step(&expanded, j as int);
        }
        let keep = under_scan_bases(&expanded[j].package, &bases);
        proof {
            let sj = expanded@[j as int].deep_view();
            let db = declared_bases(ex, Seq::empty());
            if db.len() > 0 {
                if let Some(p) = sj.package {
                    let v = bases->0;
                    lemma_same_bases(v.deep_view(), db, p);
                }
            }
            assert(keep == in_scan(sj, ex));
        }
        if keep {
            push_dv(&mut kept, expanded[j].copy());
        }
        j = j + 1;
    }
    let ks = kept.as_slice();
    assert(ks.deep_view() =~= kept.deep_view());
    assert(ex.skip(ex.len() as int) =~= Seq::<BeanSpecM>::empty());
    BeanRegistry::build(ks, natives)
}

} // verus!
