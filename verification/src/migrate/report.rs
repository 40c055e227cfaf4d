//! Migration report model and rendering.
use vstd::prelude::*;
use crate::compiler::ast::push_dv;
use crate::text::{copy_string, decimal, occurs_at, push_str, string_of, u64_to_string};

verus! {

/// Compatibility verdict for a feature of a Spring Boot project.
#[derive(Debug, Clone, Copy, PartialEq, Eq, Structural)]
pub enum Compat {
    /// Works on RustJVM as-is or with automated conversion.
    Compatible,
    /// Partially supported — needs manual attention.
    Partial,
    /// Not supported — an alternative must be chosen.
    Unsupported,
}

/// A feature found in the Spring Boot project, with its RustJVM fate.
#[derive(Debug)]
pub struct Finding {
    /// What was found, e.g. "spring-boot-starter-web" or "@RestController".
    pub feature: String,
    /// Where it was found (file or pom.xml), relative to the project.
    pub location: String,
    /// Compatibility verdict.
    pub compat: Compat,
    /// What to do about it (required for Partial/Unsupported).
    pub note: String,
}

/// A source edit the converter will apply.
#[derive(Debug)]
pub struct Conversion {
    pub file: String,
    /// e.g. "@SpringBootApplication → @RustJVMApplication"
    pub description: String,
}

/// A file the converter generates (rustjvm.toml, README-MIGRATION.md, ...).
#[derive(Debug)]
pub struct GeneratedFile {
    pub path: String,
    pub contents: String,
}

#[derive(Debug)]
pub struct MigrationReport {
    pub findings: Vec<Finding>,
    pub conversions: Vec<Conversion>,
    pub generated: Vec<GeneratedFile>,
}

pub struct FindingM {
    pub feature: Seq<char>,
    pub location: Seq<char>,
    pub compat: Compat,
    pub note: Seq<char>,
}

pub struct ReportM {
    pub findings: Seq<FindingM>,
    /// (file, description) of each conversion.
    pub conversions: Seq<(Seq<char>, Seq<char>)>,
    /// (path, contents) of each generated file.
    pub generated: Seq<(Seq<char>, Seq<char>)>,
}

impl Finding {
    pub open spec fn model(&self) -> FindingM {
        FindingM {
            feature: self.feature@,
            location: self.location@,
            compat: self.compat,
            note: self.note@,
        }
    }

    /// A copy of this finding.
    pub fn copy(&self) -> (r: Finding)
        ensures
            r.model() == self.model(),
    {
        Finding {
            feature: copy_string(&self.feature),
            location: copy_string(&self.location),
            compat: self.compat,
            note: copy_string(&self.note),
        }
    }
}

pub open spec fn findings_model(fs: Seq<Finding>) -> Seq<FindingM> {
    fs.map_values(|f: Finding| f.model())
}

impl MigrationReport {
    pub open spec fn model(&self) -> ReportM {
        ReportM {
            findings: findings_model(self.findings@),
            conversions: self.conversions@.map_values(
                |c: Conversion| (c.file@, c.description@),
            ),
            generated: self.generated@.map_values(|g: GeneratedFile| (g.path@, g.contents@)),
        }
    }
}

/// Some finding of `fs` has this feature and verdict.
pub open spec fn has_verdict(fs: Seq<FindingM>, feature: Seq<char>, compat: Compat) -> bool {
    exists|i: int| 0 <= i < fs.len() && fs[i].feature == feature && fs[i].compat == compat
}

/// `fs` with `f` recorded, unless a finding with its feature and verdict
/// is there already.
pub open spec fn with_finding(fs: Seq<FindingM>, f: FindingM) -> Seq<FindingM> {
    if has_verdict(fs, f.feature, f.compat) {
        fs
    } else {
        fs.push(f)
    }
}

/// No two findings share both feature and verdict.
pub open spec fn one_verdict_each(fs: Seq<FindingM>) -> bool {
    forall|i: int, j: int|
        0 <= i < j < fs.len() ==> !(#[trigger] fs[i].feature == #[trigger] fs[j].feature
            && fs[i].compat == fs[j].compat)
}

/// The findings of `fs` with verdict `c`, in order.
pub open spec fn of_compat(fs: Seq<FindingM>, c: Compat) -> Seq<FindingM>
    decreases fs.len(),
{
    if fs.len() == 0 {
        Seq::empty()
    } else if fs.last().compat == c {
        of_compat(fs.drop_last(), c).push(fs.last())
    } else {
        of_compat(fs.drop_last(), c)
    }
}

/// One bullet of a verdict section.
pub open spec fn finding_line(marker: Seq<char>, f: FindingM) -> Seq<char> {
    "- "@ + marker + " `"@ + f.feature + "` — "@ + f.note + " _(in "@ + f.location + ")_\n"@
}

pub open spec fn finding_lines(marker: Seq<char>, fs: Seq<FindingM>) -> Seq<char>
    decreases fs.len(),
{
    if fs.len() == 0 {
        Seq::empty()
    } else {
        finding_lines(marker, fs.drop_last()) + finding_line(marker, fs.last())
    }
}

/// The section of the report for one verdict.
pub open spec fn verdict_section(
    title: Seq<char>,
    marker: Seq<char>,
    fs: Seq<FindingM>,
    c: Compat,
) -> Seq<char> {
    let items = of_compat(fs, c);
    "## "@ + title + " ("@ + decimal(items.len()) + ")\n"@ + finding_lines(marker, items) + "\n"@
}

pub open spec fn conversion_lines(cs: Seq<(Seq<char>, Seq<char>)>) -> Seq<char>
    decreases cs.len(),
{
    if cs.len() == 0 {
        Seq::empty()
    } else {
        conversion_lines(cs.drop_last()) + "- `"@ + cs.last().0 + "`: "@ + cs.last().1 + "\n"@
    }
}

pub open spec fn generated_lines(gs: Seq<(Seq<char>, Seq<char>)>) -> Seq<char>
    decreases gs.len(),
{
    if gs.len() == 0 {
        Seq::empty()
    } else {
        generated_lines(gs.drop_last()) + "- `"@ + gs.last().0 + "`\n"@
    }
}

/// The conversions part of the report.
pub open spec fn conversions_part(cs: Seq<(Seq<char>, Seq<char>)>) -> Seq<char> {
    if cs.len() == 0 {
        Seq::<char>::empty()
    } else {
        "## Automated conversions ("@ + decimal(cs.len()) + ")\n"@ + conversion_lines(cs) + "\n"@
    }
}

/// The generated-files part of the report.
pub open spec fn generated_part(gs: Seq<(Seq<char>, Seq<char>)>) -> Seq<char> {
    if gs.len() == 0 {
        Seq::<char>::empty()
    } else {
        "## Generated files ("@ + decimal(gs.len()) + ")\n"@ + generated_lines(gs)
    }
}

/// The markdown text of a report.
pub open spec fn report_markdown(r: ReportM) -> Seq<char> {
    "# RustJVM Migration Report\n\n"@ + verdict_section(
        "Fully compatible"@,
        "✅"@,
        r.findings,
        Compat::Compatible,
    ) + verdict_section("Needs attention"@, "⚠️"@, r.findings, Compat::Partial) + verdict_section(
        "Unsupported"@,
        "❌"@,
        r.findings,
        Compat::Unsupported,
    ) + conversions_part(r.conversions) + generated_part(r.generated)
}

/// The heading of a verdict section with `n` findings.
pub open spec fn verdict_heading(title: Seq<char>, n: nat) -> Seq<char> {
    "## "@ + title + " ("@ + decimal(n) + ")\n"@
}

/// The report opens with its title, then lists the fully compatible, the
/// needs-attention and the unsupported findings, in that order, each
/// section headed by its count and followed by one bullet per finding; the
/// automated conversions and the generated files come after them.
pub proof fn lemma_report_sections(r: ReportM)
    ensures
        ({
            let md = report_markdown(r);
            let top = "# RustJVM Migration Report\n\n"@;
            let a = of_compat(r.findings, Compat::Compatible);
            let b = of_compat(r.findings, Compat::Partial);
            let c = of_compat(r.findings, Compat::Unsupported);
            let s1 = verdict_heading("Fully compatible"@, a.len()) + finding_lines("✅"@, a) + "\n"@;
            let s2 = verdict_heading("Needs attention"@, b.len()) + finding_lines("⚠️"@, b) + "\n"@;
            let s3 = verdict_heading("Unsupported"@, c.len()) + finding_lines("❌"@, c) + "\n"@;
            &&& occurs_at(top, md, 0)
            &&& occurs_at(s1, md, top.len() as int)
            &&& occurs_at(s2, md, (top.len() + s1.len()) as int)
            &&& occurs_at(s3, md, (top.len() + s1.len() + s2.len()) as int)
            &&& occurs_at(
                conversions_part(r.conversions) + generated_part(r.generated),
                md,
                (top.len() + s1.len() + s2.len() + s3.len()) as int,
            )
            &&& md.len() == top.len() + s1.len() + s2.len() + s3.len() + conversions_part(r.conversions).len()
                + generated_part(r.generated).len()
        }),
{
    let md = report_markdown(r);
    let top = "# RustJVM Migration Report\n\n"@;
    let a = of_compat(r.findings, Compat::Compatible);
    let b = of_compat(r.findings, Compat::Partial);
    let c = of_compat(r.findings, Compat::Unsupported);
    let s1 = verdict_section("Fully compatible"@, "✅"@, r.findings, Compat::Compatible);
    let s2 = verdict_section("Needs attention"@, "⚠️"@, r.findings, Compat::Partial);
    let s3 = verdict_section("Unsupported"@, "❌"@, r.findings, Compat::Unsupported);
    let rest = conversions_part(r.conversions) + generated_part(r.generated);
    assert(md == top + s1 + s2 + s3 + rest);
    lemma_occurs_between(Seq::empty(), top, s1 + s2 + s3 + rest);
    lemma_occurs_between(top, s1, s2 + s3 + rest);
    lemma_occurs_between(top + s1, s2, s3 + rest);
    lemma_occurs_between(top + s1 + s2, s3, rest);
    lemma_occurs_between(top + s1 + s2 + s3, rest, Seq::empty());
    assert(Seq::<char>::empty() + top + (s1 + s2 + s3 + rest) =~= md);
    assert(top + s1 + (s2 + s3 + rest) =~= md);
    assert(top + s1 + s2 + (s3 + rest) =~= md);
    assert(top + s1 + s2 + s3 + rest + Seq::<char>::empty() =~= md);
}

proof fn lemma_occurs_between(a: Seq<char>, x: Seq<char>, b: Seq<char>)
    ensures
        occurs_at(x, a + x + b, a.len() as int),
{
    assert((a + x + b).subrange(a.len() as int, (a.len() + x.len()) as int) =~= x);
}

fn push_count(out: &mut String, n: usize)
    ensures
        final(out)@ == old(out)@ + decimal(n as nat),
{
    let s = u64_to_string(n as u64);
    push_str(out, s.as_str());
}

impl MigrationReport {
    pub fn new() -> (r: MigrationReport)
        ensures
            r.findings@.len() == 0,
            r.conversions@.len() == 0,
            r.generated@.len() == 0,
    {
        MigrationReport { findings: Vec::new(), conversions: Vec::new(), generated: Vec::new() }
    }

    /// Records a finding, unless one with the same feature and verdict is
    /// already recorded: one verdict per feature kind is enough for a
    /// readable report.
    pub fn add_finding(&mut self, finding: Finding)
        ensures
            final(self).conversions@ == old(self).conversions@,
            final(self).generated@ == old(self).generated@,
            has_verdict(old(self).model().findings, finding.feature@, finding.compat)
                ==> final(self).findings@ == old(self).findings@,
            !has_verdict(old(self).model().findings, finding.feature@, finding.compat)
                ==> final(self).findings@ == old(self).findings@.push(finding),
            final(self).model().findings == with_finding(old(self).model().findings, finding.model()),
            one_verdict_each(old(self).model().findings) ==> one_verdict_each(
                final(self).model().findings,
            ),
    {
        let ghost fm = self.model().findings;
        let mut i: usize = 0;
        while i < self.findings.len()
            invariant
                i <= self.findings@.len(),
                fm == self.model().findings,
                forall|k: int|
                    0 <= k < i ==> !(fm[k].feature == finding.feature@ && fm[k].compat
                        == finding.compat),
            decreases self.findings.len() - i,
        {
            let f = &self.findings[i];
            if crate::text::str_eq(f.feature.as_str(), finding.feature.as_str()) && f.compat
                == finding.compat {
                assert(fm[i as int] == f.model());
                assert(has_verdict(fm, finding.feature@, finding.compat));
                return;
            }
            assert(fm[i as int] == f.model());
            i = i + 1;
        }
        self.findings.push(finding);
        proof {
            assert(self.model().findings =~= fm.push(finding.model()));
        }
    }

    pub fn add_conversion(&mut self, conversion: Conversion)
        ensures
            final(self).findings@ == old(self).findings@,
            final(self).generated@ == old(self).generated@,
            final(self).conversions@ == old(self).conversions@.push(conversion),
    {
        self.conversions.push(conversion);
    }

    pub fn add_generated(&mut self, path: String, contents: String)
        ensures
            final(self).findings@ == old(self).findings@,
            final(self).conversions@ == old(self).conversions@,
            final(self).model().generated == old(self).model().generated.push(
                (path@, contents@),
            ),
    {
        let ghost g0 = self.model().generated;
        self.generated.push(GeneratedFile { path, contents });
        assert(self.model().generated =~= g0.push((path@, contents@)));
    }

    /// The findings with verdict `compat`, in the order they were recorded.
    pub fn by_compat(&self, compat: Compat) -> (r: Vec<Finding>)
        ensures
            findings_model(r@) == of_compat(self.model().findings, compat),
    {
        let ghost fm = self.model().findings;
        let mut out: Vec<Finding> = Vec::new();
        let mut i: usize = 0;
        assert(findings_model(out@) =~= of_compat(fm.take(0), compat));
        while i < self.findings.len()
            invariant
                i <= self.findings@.len(),
                fm == self.model().findings,
                findings_model(out@) == of_compat(fm.take(i as int), compat),
            decreases self.findings.len() - i,
        {
            assert(fm.take(i + 1).drop_last() =~= fm.take(i as int));
            assert(fm.take(i + 1).last() == self.findings@[i as int].model());
            if self.findings[i].compat == compat {
                let ghost before = out@;
                out.push(self.findings[i].copy());
                assert(findings_model(out@) =~= findings_model(before).push(
                    self.findings@[i as int].model(),
                ));
            }
            i = i + 1;
        }
        assert(fm.take(fm.len() as int) =~= fm);
        out
    }

    fn push_section(&self, out: &mut String, title: &str, compat: Compat, marker: &str)
        ensures
            final(out)@ == old(out)@ + verdict_section(
                title@,
                marker@,
                self.model().findings,
                compat,
            ),
    {
        let items = self.by_compat(compat);
        let ghost im = findings_model(items@);
        push_str(out, "## ");
        push_str(out, title);
        push_str(out, " (");
        push_count(out, items.len());
        push_str(out, ")\n");
        let ghost o = out@;
        let mut i: usize = 0;
        assert(im.take(0) =~= Seq::<FindingM>::empty());
        assert(o + finding_lines(marker@, im.take(0)) =~= o);
        while i < items.len()
            invariant
                i <= items@.len(),
                im == findings_model(items@),
                out@ == o + finding_lines(marker@, im.take(i as int)),
            decreases items.len() - i,
        {
            let f = &items[i];
            push_str(out, "- ");
            push_str(out, marker);
            push_str(out, " `");
            push_str(out, f.feature.as_str());
            push_str(out, "` — ");
            push_str(out, f.note.as_str());
            push_str(out, " _(in ");
            push_str(out, f.location.as_str());
            push_str(out, ")_\n");
            assert(im.take(i + 1).drop_last() =~= im.take(i as int));
            assert(im.take(i + 1).last() == f.model());
            assert(out@ =~= o + finding_lines(marker@, im.take(i + 1)));
            i = i + 1;
        }
        push_str(out, "\n");
        assert(im.take(im.len() as int) =~= im);
        assert(im.len() == items@.len());
    }

    fn push_conversions(&self, out: &mut String)
        ensures
            final(out)@ == old(out)@ + conversions_part(self.model().conversions),
    {
        let ghost m = self.model();
        if self.conversions.len() == 0 {
            assert(old(out)@ + Seq::<char>::empty() =~= old(out)@);
            return;
        }
        let ghost o0 = out@;
        push_str(out, "## Automated conversions (");
        push_count(out, self.conversions.len());
        push_str(out, ")\n");
        let ghost o = out@;
        let mut i: usize = 0;
        assert(m.conversions.take(0) =~= Seq::<(Seq<char>, Seq<char>)>::empty());
        assert(o + conversion_lines(m.conversions.take(0)) =~= o);
        while i < self.conversions.len()
            invariant
                i <= self.conversions@.len(),
                m == self.model(),
                out@ == o + conversion_lines(m.conversions.take(i as int)),
            decreases self.conversions.len() - i,
        {
            let c = &self.conversions[i];
            push_str(out, "- `");
            push_str(out, c.file.as_str());
            push_str(out, "`: ");
            push_str(out, c.description.as_str());
            push_str(out, "\n");
            assert(m.conversions.take(i + 1).drop_last() =~= m.conversions.take(i as int));
            assert(out@ =~= o + conversion_lines(m.conversions.take(i + 1)));
            i = i + 1;
        }
        assert(m.conversions.take(m.conversions.len() as int) =~= m.conversions);
        push_str(out, "\n");
        assert(out@ =~= o0 + conversions_part(m.conversions));
    }

    fn push_generated(&self, out: &mut String)
        ensures
            final(out)@ == old(out)@ + generated_part(self.model().generated),
    {
        let ghost m = self.model();
        if self.generated.len() == 0 {
            assert(old(out)@ + Seq::<char>::empty() =~= old(out)@);
            return;
        }
        let ghost o0 = out@;
        push_str(out, "## Generated files (");
        push_count(out, self.generated.len());
        push_str(out, ")\n");
        let ghost o = out@;
        let mut i: usize = 0;
        assert(m.generated.take(0) =~= Seq::<(Seq<char>, Seq<char>)>::empty());
        assert(o + generated_lines(m.generated.take(0)) =~= o);
        while i < self.generated.len()
            invariant
                i <= self.generated@.len(),
                m == self.model(),
                out@ == o + generated_lines(m.generated.take(i as int)),
            decreases self.generated.len() - i,
        {
            let g = &self.generated[i];
            push_str(out, "- `");
            push_str(out, g.path.as_str());
            push_str(out, "`\n");
            assert(m.generated.take(i + 1).drop_last() =~= m.generated.take(i as int));
            assert(out@ =~= o + generated_lines(m.generated.take(i + 1)));
            i = i + 1;
        }
        assert(m.generated.take(m.generated.len() as int) =~= m.generated);
        assert(out@ =~= o0 + generated_part(m.generated));
    }

    /// Human-readable markdown report.
    pub fn to_markdown(&self) -> (r: String)
        ensures
            r@ == report_markdown(self.model()),
    {
        let mut out = string_of("# RustJVM Migration Report\n\n");
        self.push_section(&mut out, "Fully compatible", Compat::Compatible, "✅");
        self.push_section(&mut out, "Needs attention", Compat::Partial, "⚠️");
        self.push_section(&mut out, "Unsupported", Compat::Unsupported, "❌");
        self.push_conversions(&mut out);
        self.push_generated(&mut out);
        proof {
            assert(out@ =~= report_markdown(self.model()));
        }
        out
    }
}

} // verus!
