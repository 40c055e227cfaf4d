//! LiveRust — hot reload without restart: what one changed source file does
//! to the running application.
//!
//! Consistency rule: if either the file fails to compile or the new bean
//! graph fails to build, nothing is swapped; the previous version keeps
//! serving, and the scan cache is left as it was.
use vstd::prelude::*;
use crate::compiler::{analyze_source, analysis_of, Analysis};
use crate::compiler::ast::{ClassDecl, ClassM, push_dv};
use crate::compiler::compile::{
    BeanSpec, BeanSpecM, CompiledRoute, RouteM, declared_bases, in_package, scan_base_packages,
    under_scan_bases,
};
use crate::compiler::parser::{parse_spec, ParseError};
use crate::runtime::assemble::{
    all_classes, all_specs, assemble_registry, expand_all, lemma_same_bases, scan_keep,
};
use crate::runtime::registry::{BeanRegistry, DIError, DIErrorM, NativeDef, build_outcome};
use crate::text::{copy_string, str_eq};

verus! {

/// What one source file contributes, kept for registry rebuilds.
#[derive(Debug)]
pub struct CachedFile {
    pub beans: Vec<BeanSpec>,
    pub classes: Vec<ClassDecl>,
}

/// The bean definitions and classes of each cached file.
pub type FileModels = Seq<(Seq<BeanSpecM>, Seq<ClassM>)>;

pub open spec fn file_models(files: Seq<(Vec<BeanSpec>, Vec<ClassDecl>)>) -> FileModels {
    files.map_values(|f: (Vec<BeanSpec>, Vec<ClassDecl>)| (f.0.deep_view(), f.1.deep_view()))
}

/// The bean definitions of all files, in order.
pub open spec fn specs_of(fm: FileModels) -> Seq<BeanSpecM>
    decreases fm.len(),
{
    if fm.len() == 0 {
        Seq::empty()
    } else {
        specs_of(fm.drop_last()) + fm.last().0
    }
}

/// The classes of all files, in order.
pub open spec fn classes_of(fm: FileModels) -> Seq<ClassM>
    decreases fm.len(),
{
    if fm.len() == 0 {
        Seq::empty()
    } else {
        classes_of(fm.drop_last()) + fm.last().1
    }
}

proof fn lemma_models_of(files: Seq<(Vec<BeanSpec>, Vec<ClassDecl>)>)
    ensures
        all_specs(files) == specs_of(file_models(files)),
        all_classes(files) == classes_of(file_models(files)),
    decreases files.len(),
{
    if files.len() > 0 {
        lemma_models_of(files.drop_last());
        assert(file_models(files).drop_last() =~= file_models(files.drop_last()));
    }
}

/// What assembling a registry from these files gives: the outcome
/// `assemble_registry` states.
pub open spec fn assembled(fm: FileModels, natives: Seq<NativeDef>, r: Result<BeanRegistry, DIError>) -> bool {
    match expand_all(specs_of(fm), classes_of(fm), Seq::empty()) {
        Err(n) => r matches Err(e) && e@ == DIErrorM::NoSuchBean(n),
        Ok(expanded) => build_outcome(scan_keep(expanded, expanded, Seq::empty()), natives, r),
    }
}

/// Index of `key` among `keys`, from `i` on.
pub open spec fn key_index(keys: Seq<Seq<char>>, key: Seq<char>, i: int) -> Option<int>
    decreases keys.len() - i,
{
    if i < 0 || i >= keys.len() {
        None
    } else if keys[i] == key {
        Some(i)
    } else {
        key_index(keys, key, i + 1)
    }
}

/// The cache after `key`'s entry was set to `f`: replaced in place, or
/// added at the end.
pub open spec fn cache_with(
    keys: Seq<Seq<char>>,
    fm: FileModels,
    key: Seq<char>,
    f: (Seq<BeanSpecM>, Seq<ClassM>),
) -> (Seq<Seq<char>>, FileModels) {
    match key_index(keys, key, 0) {
        Some(i) => (keys, fm.update(i, f)),
        None => (keys.push(key), fm.push(f)),
    }
}

pub open spec fn keys_unique(keys: Seq<Seq<char>>) -> bool {
    forall|i: int, j: int| 0 <= i < j < keys.len() ==> keys[i] != keys[j]
}

proof fn lemma_key_index(keys: Seq<Seq<char>>, key: Seq<char>, i: int)
    requires
        0 <= i,
    ensures
        key_index(keys, key, i) matches Some(j) ==> i <= j < keys.len() && keys[j] == key,
        key_index(keys, key, i) is None ==> forall|j: int| i <= j < keys.len() ==> keys[j] != key,
    decreases keys.len() - i,
{
    if i < keys.len() && keys[i] != key {
        lemma_key_index(keys, key, i + 1);
    }
}

/// The latest known-good scan output of each source file, by file key.
pub struct SourceCache {
    keys: Vec<String>,
    files: Vec<(Vec<BeanSpec>, Vec<ClassDecl>)>,
}

impl SourceCache {
    #[verifier::type_invariant]
    spec fn wf(&self) -> bool {
        &&& self.keys@.len() == self.files@.len()
        &&& keys_unique(self.keys.deep_view())
    }

    pub closed spec fn keys_spec(&self) -> Seq<Seq<char>> {
        self.keys.deep_view()
    }

    pub closed spec fn files_spec(&self) -> Seq<(Vec<BeanSpec>, Vec<ClassDecl>)> {
        self.files@
    }

    pub open spec fn models(&self) -> FileModels {
        file_models(self.files_spec())
    }

    pub fn new() -> (r: SourceCache)
        ensures
            r.keys_spec().len() == 0,
            r.models().len() == 0,
    {
        let c = SourceCache { keys: Vec::new(), files: Vec::new() };
        assert(c.keys.deep_view() =~= Seq::<Seq<char>>::empty());
        c
    }

    pub fn len(&self) -> (r: usize)
        ensures
            r == self.keys_spec().len(),
    {
        proof {
            use_type_invariant(self);
        }
        self.keys.len()
    }

    /// The cached files, in the order their keys were first seen.
    pub fn files(&self) -> (r: &[(Vec<BeanSpec>, Vec<ClassDecl>)])
        ensures
            r@ == self.files_spec(),
    {
        self.files.as_slice()
    }

    fn find(&self, key: &str) -> (r: Option<usize>)
        ensures
            match r {
                Some(i) => key_index(self.keys_spec(), key@, 0) == Some(i as int),
                None => key_index(self.keys_spec(), key@, 0) is None,
            },
    {
        proof {
            use_type_invariant(self);
        }
        let ghost km = self.keys.deep_view();
        let mut i: usize = 0;
        while i < self.keys.len()
            invariant
                i <= self.keys@.len(),
                km == self.keys.deep_view(),
                key_index(km, key@, 0) == key_index(km, key@, i as int),
            decreases self.keys.len() - i,
        {
            assert(km[i as int] == self.keys@[i as int]@);
            if str_eq(self.keys[i].as_str(), key) {
                return Some(i);
            }
            i = i + 1;
        }
        None
    }

    /// Sets the entry of `key`; returns the entry it replaced, if any.
    pub fn insert(&mut self, key: String, file: CachedFile) -> (prev: Option<CachedFile>)
        ensures
            (final(self).keys_spec(), final(self).models()) == cache_with(
                old(self).keys_spec(),
                old(self).models(),
                key@,
                (file.beans.deep_view(), file.classes.deep_view()),
            ),
            match key_index(old(self).keys_spec(), key@, 0) {
                Some(i) => prev matches Some(p) && (p.beans, p.classes) == old(self).files_spec()[i]
                    && final(self).files_spec() == old(self).files_spec().update(i, (file.beans, file.classes)),
                None => prev is None && final(self).files_spec() == old(self).files_spec().push((file.beans, file.classes)),
            },
    {
        proof {
            use_type_invariant(&*self);
        }
        let ghost km = self.keys.deep_view();
        let ghost fs = self.files@;
        let entry = (file.beans, file.classes);
        match self.find(key.as_str()) {
            Some(i) => {
                proof {
                    lemma_key_index(km, key@, 0);
                }
                let mut whole = SourceCache::new();
                std::mem::swap(&mut whole, self);
                proof {
                    use_type_invariant(&whole);
                }
                let SourceCache { mut keys, mut files } = whole;
                let old_entry = files.remove(i);
                files.insert(i, entry);
                assert(files@ =~= fs.update(i as int, entry));
                assert(file_models(files@) =~= file_models(fs).update(
                    i as int,
                    (entry.0.deep_view(), entry.1.deep_view()),
                ));
                *self = SourceCache { keys, files };
                Some(CachedFile { beans: old_entry.0, classes: old_entry.1 })
            },
            None => {
                proof {
                    lemma_key_index(km, key@, 0);
                }
                let mut whole = SourceCache::new();
                std::mem::swap(&mut whole, self);
                proof {
                    use_type_invariant(&whole);
                }
                let SourceCache { mut keys, mut files } = whole;
                push_dv(&mut keys, key);
                files.push(entry);
                assert(file_models(files@) =~= file_models(fs).push(
                    (entry.0.deep_view(), entry.1.deep_view()),
                ));
                assert(keys_unique(keys.deep_view())) by {
                    assert forall|a: int, b: int| 0 <= a < b < keys.deep_view().len() implies keys.deep_view()[a] != keys.deep_view()[b] by {
                        if b == km.len() {
                            assert(keys.deep_view()[a] == km[a]);
                        } else {
                            assert(keys.deep_view()[a] == km[a]);
                            assert(keys.deep_view()[b] == km[b]);
                        }
                    }
                }
                *self = SourceCache { keys, files };
                None
            },
        }
    }

    /// Drops the entry of `key`, if there is one.
    pub fn remove(&mut self, key: &str) -> (prev: Option<CachedFile>)
        ensures
            match key_index(old(self).keys_spec(), key@, 0) {
                Some(i) => prev matches Some(p) && (p.beans, p.classes) == old(self).files_spec()[i]
                    && final(self).keys_spec() == old(self).keys_spec().remove(i)
                    && final(self).files_spec() == old(self).files_spec().remove(i),
                None => prev is None && final(self).keys_spec() == old(self).keys_spec()
                    && final(self).files_spec() == old(self).files_spec(),
            },
    {
        proof {
            use_type_invariant(&*self);
        }
        let ghost km = self.keys.deep_view();
        match self.find(key) {
            Some(i) => {
                proof {
                    lemma_key_index(km, key@, 0);
                }
                let mut whole = SourceCache::new();
                std::mem::swap(&mut whole, self);
                proof {
                    use_type_invariant(&whole);
                }
                let SourceCache { mut keys, mut files } = whole;
                let _k = keys.remove(i);
                let old_entry = files.remove(i);
                assert(keys.deep_view() =~= km.remove(i as int)) by {
                    assert forall|a: int| 0 <= a < keys.deep_view().len() implies keys.deep_view()[a] == km.remove(i as int)[a] by {
                        if a < i {
                        } else {
                        }
                    }
                }
                assert(keys_unique(keys.deep_view())) by {
                    assert forall|a: int, b: int| 0 <= a < b < keys.deep_view().len() implies keys.deep_view()[a] != keys.deep_view()[b] by {
                        let a0 = if a < i { a } else { a + 1 };
                        let b0 = if b < i { b } else { b + 1 };
                        assert(keys.deep_view()[a] == km[a0]);
                        assert(keys.deep_view()[b] == km[b0]);
                    }
                }
                *self = SourceCache { keys, files };
                Some(CachedFile { beans: old_entry.0, classes: old_entry.1 })
            },
            None => None,
        }
    }
}

/// Why a reload was refused; the previous version keeps serving.
#[derive(Debug)]
pub enum ReloadError {
    /// The changed file does not parse.
    Compile(ParseError),
    /// The new bean graph does not build.
    BeanGraph(DIError),
}

/// What a successful reload swaps in.
pub struct ReloadPlan {
    /// The rebuilt registry.
    pub registry: BeanRegistry,
    /// The file's routes that pass the `@ComponentScan` filter, to install.
    pub routes: Vec<CompiledRoute>,
}

/// A route passes the scan filter that the definitions `specs` declare.
pub open spec fn route_in_scan(r: RouteM, specs: Seq<BeanSpecM>) -> bool {
    let bases = declared_bases(specs, Seq::empty());
    bases.len() == 0 || (r.package matches Some(p) && exists|i: int|
        0 <= i < bases.len() && in_package(#[trigger] bases[i], p))
}

/// The routes that pass the scan filter of `specs`, in order.
pub open spec fn routes_in_scan(routes: Seq<RouteM>, specs: Seq<BeanSpecM>) -> Seq<RouteM>
    decreases routes.len(),
{
    if routes.len() == 0 {
        Seq::empty()
    } else if route_in_scan(routes.last(), specs) {
        routes_in_scan(routes.drop_last(), specs).push(routes.last())
    } else {
        routes_in_scan(routes.drop_last(), specs)
    }
}

fn all_beans(files: &[(Vec<BeanSpec>, Vec<ClassDecl>)]) -> (r: Vec<BeanSpec>)
    ensures
        r.deep_view() == all_specs(files@),
{
    let ghost fs = files@;
    let mut specs: Vec<BeanSpec> = Vec::new();
    let mut f: usize = 0;
    assert(specs.deep_view() =~= all_specs(fs.take(0)));
    while f < files.len()
        invariant
            f <= fs.len(),
            fs == files@,
            specs.deep_view() == all_specs(fs.take(f as int)),
        decreases files.len() - f,
    {
        let beans = &files[f].0;
        let ghost s0 = specs.deep_view();
        let mut k: usize = 0;
        assert(s0 + beans.deep_view().take(0) =~= s0);
        while k < beans.len()
            invariant
                k <= beans@.len(),
                specs.deep_view() == s0 + beans.deep_view().take(k as int),
            decreases beans.len() - k,
        {
            push_dv(&mut specs, beans[k].copy());
            assert(beans.deep_view().take(k + 1) =~= beans.deep_view().take(k as int).push(
                beans@[k as int].deep_view(),
            ));
            assert(specs.deep_view() =~= s0 + beans.deep_view().take(k + 1));
            k = k + 1;
        }
        assert(beans.deep_view().take(beans@.len() as int) =~= beans.deep_view());
        assert(fs.take(f + 1).drop_last() =~= fs.take(f as int));
        f = f + 1;
    }
    assert(fs.take(fs.len() as int) =~= fs);
    specs
}

fn keep_in_scan(routes: Vec<CompiledRoute>, bases: &Option<Vec<String>>, Ghost(specs): Ghost<Seq<BeanSpecM>>) -> (r: Vec<CompiledRoute>)
    requires
        declared_bases(specs, Seq::empty()).len() == 0 ==> bases is None,
        declared_bases(specs, Seq::empty()).len() > 0 ==> (bases matches Some(v)
            && v.deep_view().to_set() == declared_bases(specs, Seq::empty()).to_set()),
    ensures
        r.deep_view() == routes_in_scan(routes.deep_view(), specs),
{
    let ghost rm = routes.deep_view();
    let mut rest = routes;
    let mut kept: Vec<CompiledRoute> = Vec::new();
    let ghost mut i: int = 0;
    assert(rm.skip(0) =~= rm);
    assert(kept.deep_view() =~= routes_in_scan(rm.take(0), specs));
    while rest.len() > 0
        invariant
            0 <= i <= rm.len(),
            rest.deep_view() == rm.skip(i),
            kept.deep_view() == routes_in_scan(rm.take(i), specs),
            declared_bases(specs, Seq::empty()).len() == 0 ==> bases is None,
            declared_bases(specs, Seq::empty()).len() > 0 ==> (bases matches Some(v)
                && v.deep_view().to_set() == declared_bases(specs, Seq::empty()).to_set()),
        decreases rest.len(),
    {
        let ghost before = rest.deep_view();
        let r = rest.remove(0);
        assert(rest.deep_view() =~= before.drop_first()) by {
            assert forall|a: int| 0 <= a < rest.deep_view().len() implies rest.deep_view()[a] == before.drop_first()[a] by {
            }
        }
        assert(before[0] == r.deep_view());
        assert(rm[i] == r.deep_view());
        let keep = under_scan_bases(&r.package, bases);
        proof {
            let db = declared_bases(specs, Seq::empty());
            if db.len() > 0 {
                if let Some(p) = r.deep_view().package {
                    let v = bases->0;
                    lemma_same_bases(v.deep_view(), db, p);
                }
            }
            assert(keep == route_in_scan(r.deep_view(), specs));
            assert(rm.take(i + 1).drop_last() =~= rm.take(i));
            assert(rm.skip(i).drop_first() =~= rm.skip(i + 1));
        }
        if keep {
            push_dv(&mut kept, r);
        }
        proof {
            i = i + 1;
        }
    }
    assert(rm.take(i) =~= rm);
    kept
}

/// Takes a changed source file into the cache and builds the registry
/// over every cached file. On success the cache holds the new file and
/// the plan holds the rebuilt registry and the file's routes under the
/// scan filter; on failure — the file does not parse, or the new bean
/// graph does not build — the cache is left as it was and nothing is to
/// be swapped.
pub fn prepare_reload(
    cache: &mut SourceCache,
    key: &str,
    src: &str,
    natives: Vec<NativeDef>,
) -> (r: Result<ReloadPlan, ReloadError>)
    requires
        src@.len() < usize::MAX,
    ensures
        r is Err ==> final(cache).keys_spec() == old(cache).keys_spec() && final(cache).files_spec()
            == old(cache).files_spec(),
        match parse_spec(src@) {
            Err(e) => r matches Err(ReloadError::Compile(pe)) && pe@ == e,
            Ok(f) => {
                let a = analysis_of(f);
                let (nk, nf) = cache_with(
                    old(cache).keys_spec(),
                    old(cache).models(),
                    key@,
                    (a.beans, a.classes),
                );
                &&& r matches Ok(p) ==> final(cache).keys_spec() == nk && final(cache).models()
                    == nf && assembled(nf, natives@, Ok(p.registry)) && p.routes.deep_view()
                    == routes_in_scan(a.routes, specs_of(nf))
                &&& r matches Err(e) ==> e matches ReloadError::BeanGraph(de) && assembled(
                    nf,
                    natives@,
                    Err(de),
                )
            },
        },
{
    let analysis = match analyze_source(src) {
        Ok(a) => a,
        Err(e) => {
            return Err(ReloadError::Compile(e));
        },
    };
    let Analysis { routes, beans, classes } = analysis;
    proof {
        use_type_invariant(&*cache);
    }
    let ghost km = cache.keys_spec();
    let ghost fs = cache.files_spec();
    proof {
        lemma_key_index(km, key@, 0);
    }
    let prev = cache.insert(crate::text::string_of(key), CachedFile { beans, classes });
    let ghost nf = cache.models();
    proof {
        lemma_models_of(cache.files_spec());
    }
    let built = assemble_registry(cache.files(), natives);
    match built {
        Err(e) => {
            match prev {
                Some(old_entry) => {
                    let ghost i = key_index(km, key@, 0)->0;
                    assert(key_index(km, key@, 0) == Some(i));
                    assert(cache.keys_spec() == km);
                    assert((old_entry.beans, old_entry.classes) == fs[i]);
                    cache.insert(crate::text::string_of(key), old_entry);
                    assert(cache.files_spec() =~= fs);
                },
                None => {
                    proof {
                        let kp = km.push(key@);
                        lemma_key_index(kp, key@, 0);
                        match key_index(kp, key@, 0) {
                            Some(j) => {
                                if j < km.len() {
                                    assert(kp[j] == km[j]);
                                }
                            },
                            None => {
                                assert(kp[km.len() as int] == key@);
                            },
                        }
                        assert(cache.keys_spec() == kp);
                    }
                    cache.remove(key);
                    assert(cache.keys_spec() =~= km);
                    assert(cache.files_spec() =~= fs);
                },
            }
            Err(ReloadError::BeanGraph(e))
        },
        Ok(registry) => {
            let every = all_beans(cache.files());
            let es = every.as_slice();
            assert(es.deep_view() =~= every.deep_view());
            let bases = scan_base_packages(es);
            let kept = keep_in_scan(routes, &bases, Ghost(specs_of(nf)));
            Ok(ReloadPlan { registry, routes: kept })
        },
    }
}

} // verus!
