//! What the readers of specifications, templates, units and schemas make of the files of a
//! repository, sorted into what is built and what is reported.
//!
//! A file that cannot be read never stops an index run. One that only might have been a
//! specification is passed over; one that carries the signs of a template, unit or schema is
//! reported by path.
use vstd::prelude::*;

use crate::contract::OperationDef;
use crate::data::SchemaModel;
use crate::infra::{InfraTemplate, TerragruntUnit};
use crate::text;

verus! {

/// How many diagnostics are kept.
pub const MAX_INFRA_DIAGNOSTICS: usize = 20;

/// The diagnostics that are kept: the first ones, and how many more there were.
pub open spec fn capped(lines: Seq<Seq<char>>) -> Seq<Seq<char>> {
    if lines.len() > MAX_INFRA_DIAGNOSTICS {
        lines.take(MAX_INFRA_DIAGNOSTICS as int).push(
            "… and "@ + text::decimal((lines.len() - MAX_INFRA_DIAGNOSTICS) as nat)
                + " more infra template failure(s)"@,
        )
    } else {
        lines
    }
}

/// Keeps the first diagnostics, and says how many more there were.
pub fn cap_diagnostics(diagnostics: Vec<String>) -> (r: Vec<String>)
    ensures
        text::views(r@) == capped(text::views(diagnostics@)),
{
    let mut out = diagnostics;
    if out.len() > MAX_INFRA_DIAGNOSTICS {
        let extra: usize = out.len() - MAX_INFRA_DIAGNOSTICS;
        let n = text::decimal_of(extra as u128);
        let line = text::concat3("… and ", n.as_str(), " more infra template failure(s)");
        let ghost lv = line@;
        let ghost all = text::views(out@);
        out.truncate(MAX_INFRA_DIAGNOSTICS);
        out.push(line);
        assert(text::views(out@) =~= all.take(MAX_INFRA_DIAGNOSTICS as int).push(lv));
    }
    out
}

/// Capping keeps the first diagnostics as they are, and never keeps more than one line above the
/// cap.
pub proof fn law_capping(lines: Seq<Seq<char>>)
    ensures
        capped(lines).len() <= MAX_INFRA_DIAGNOSTICS + 1,
        forall|i: int|
            0 <= i < lines.len() && i < MAX_INFRA_DIAGNOSTICS ==> #[trigger] capped(lines)[i] == lines[i],
        lines.len() <= MAX_INFRA_DIAGNOSTICS ==> capped(lines) == lines,
{
}

// ----------------------------------------------------------------------------------------------
// Specifications
// ----------------------------------------------------------------------------------------------

/// What came of a file that might be a specification.
#[derive(Debug, PartialEq, Eq)]
pub enum SpecReading {
    /// It is none.
    Other,
    /// It is one, and cannot be read.
    Malformed,
    Operations(Vec<OperationDef>),
}

/// The operations of the first `n` files.
pub open spec fn operations_upto(readings: Seq<SpecReading>, n: nat) -> Seq<OperationDef>
    decreases n,
{
    if n == 0 {
        Seq::empty()
    } else {
        let rest = operations_upto(readings, (n - 1) as nat);
        match readings[n - 1] {
            SpecReading::Operations(ops) => rest + ops@,
            _ => rest,
        }
    }
}

/// The operations of a list of files.
pub open spec fn operations_of(readings: Seq<SpecReading>) -> Seq<OperationDef> {
    operations_upto(readings, readings.len())
}

fn append_operations(out: &mut Vec<OperationDef>, readings: Vec<SpecReading>)
    ensures
        final(out)@ == old(out)@ + operations_of(readings@),
{
    let ghost base = out@;
    let ghost all = readings@;
    let mut left = readings;
    let ghost mut n: nat = 0;
    assert(left@ =~= all.skip(0));
    assert(out@ =~= base + operations_upto(all, 0));
    while left.len() > 0
        invariant
            n <= all.len(),
            left@ == all.skip(n as int),
            out@ == base + operations_upto(all, n),
        decreases left@.len(),
    {
        let reading = left.remove(0);
        assert(reading == all[n as int]);
        assert(left@ =~= all.skip(n as int + 1));
        match reading {
            SpecReading::Operations(ops) => {
                let mut ops = ops;
                out.append(&mut ops);
            },
            _ => {},
        }
        proof {
            n = n + 1;
            assert(out@ =~= base + operations_upto(all, n));
        }
    }
}

/// The operations that the specifications of a repository define: those of OpenAPI, of GraphQL
/// schemas and of Protobuf services, in this order.
pub fn extract_repo_operations(openapi: Vec<SpecReading>, graphql: Vec<SpecReading>, proto: Vec<SpecReading>) -> (r: Vec<
    OperationDef,
>)
    ensures
        r@ == operations_of(openapi@) + operations_of(graphql@) + operations_of(proto@),
{
    let mut out: Vec<OperationDef> = Vec::new();
    append_operations(&mut out, openapi);
    append_operations(&mut out, graphql);
    append_operations(&mut out, proto);
    out
}

/// A specification that cannot be read takes no other with it: the operations are the same as
/// without its file.
pub proof fn law_malformed_specs_are_skipped(before: Seq<SpecReading>, after: Seq<SpecReading>)
    ensures
        operations_of(before.push(SpecReading::Malformed) + after) == operations_of(before + after),
    decreases after.len(),
{
    let with = before.push(SpecReading::Malformed) + after;
    let without = before + after;
    lemma_operations_prefix(with, before, before.len());
    lemma_operations_prefix(without, before, before.len());
    if after.len() == 0 {
        assert(with =~= before.push(SpecReading::Malformed));
        assert(without =~= before);
        assert(with[before.len() as int] == SpecReading::Malformed);
    } else {
        let shorter = after.drop_last();
        law_malformed_specs_are_skipped(before, shorter);
        let sw = before.push(SpecReading::Malformed) + shorter;
        let so = before + shorter;
        lemma_operations_prefix(with, sw, sw.len());
        lemma_operations_prefix(without, so, so.len());
        assert(with[with.len() - 1] == after.last());
        assert(without[without.len() - 1] == after.last());
        assert(sw.len() == with.len() - 1);
        assert(so.len() == without.len() - 1);
    }
}

proof fn lemma_operations_prefix(a: Seq<SpecReading>, b: Seq<SpecReading>, n: nat)
    requires
        n <= b.len() <= a.len(),
        forall|i: int| 0 <= i < b.len() ==> a[i] == #[trigger] b[i],
    ensures
        operations_upto(a, n) == operations_upto(b, n),
    decreases n,
{
    if n > 0 {
        lemma_operations_prefix(a, b, (n - 1) as nat);
        assert(a[n - 1] == b[n - 1]);
    }
}

// ----------------------------------------------------------------------------------------------
// Templates
// ----------------------------------------------------------------------------------------------

/// Whether a file is a CloudFormation template, and what came of reading it.
#[derive(Debug, PartialEq, Eq)]
pub enum CfnReading {
    Template(Result<InfraTemplate, String>),
    /// It carries the signs of a template and cannot be parsed.
    Malformed(String),
    NotCfn,
}

/// What came of a file that might be a template.
#[derive(Debug, PartialEq, Eq)]
pub struct TemplateReading {
    pub path: String,
    /// Whether it is an OpenAPI specification.
    pub contract: bool,
    /// Where it is a Terraform plan, what came of reading it.
    pub plan: Option<Result<InfraTemplate, String>>,
    pub cfn: CfnReading,
}

/// What came of a Terraform file: nothing where it declares nothing.
#[derive(Debug, PartialEq, Eq)]
pub struct TerraformReading {
    pub path: String,
    pub template: Option<Result<InfraTemplate, String>>,
}

/// What a file gives.
pub enum Gain<T> {
    Nothing,
    /// A value of the kind that the file is of.
    Item(T),
    /// A Terraform plan.
    Plan(T),
    /// A line for the report.
    Failure(Seq<char>),
}

/// The line that reports an error.
pub open spec fn failure_line(path: Seq<char>, error: Seq<char>) -> Seq<char> {
    path + ": "@ + error
}

/// The line that reports a file that cannot be parsed.
pub open spec fn parse_error_line(path: Seq<char>, error: Seq<char>) -> Seq<char> {
    path + ": parse error: "@ + error
}

/// What a file that might be a template gives. A specification belongs to the contracts; a plan
/// comes before a template.
pub open spec fn template_gain(r: TemplateReading) -> Gain<InfraTemplate> {
    if r.contract {
        Gain::Nothing
    } else {
        match r.plan {
            Some(Ok(t)) => Gain::Plan(t),
            Some(Err(e)) => Gain::Failure(failure_line(r.path@, e@)),
            None => match r.cfn {
                CfnReading::Template(Ok(t)) => Gain::Item(t),
                CfnReading::Template(Err(e)) => Gain::Failure(failure_line(r.path@, e@)),
                CfnReading::Malformed(e) => Gain::Failure(parse_error_line(r.path@, e@)),
                CfnReading::NotCfn => Gain::Nothing,
            },
        }
    }
}

/// What a Terraform file gives.
pub open spec fn terraform_gain(r: TerraformReading) -> Gain<InfraTemplate> {
    match r.template {
        Some(Ok(t)) => Gain::Item(t),
        Some(Err(e)) => Gain::Failure(failure_line(r.path@, e@)),
        None => Gain::Nothing,
    }
}

/// The values among the first `n` gains.
pub open spec fn items_upto<T>(gains: Seq<Gain<T>>, n: nat) -> Seq<T>
    decreases n,
{
    if n == 0 {
        Seq::empty()
    } else {
        let rest = items_upto(gains, (n - 1) as nat);
        match gains[n - 1] {
            Gain::Item(t) => rest.push(t),
            _ => rest,
        }
    }
}

/// The plans among the first `n` gains.
pub open spec fn plans_upto<T>(gains: Seq<Gain<T>>, n: nat) -> Seq<T>
    decreases n,
{
    if n == 0 {
        Seq::empty()
    } else {
        let rest = plans_upto(gains, (n - 1) as nat);
        match gains[n - 1] {
            Gain::Plan(t) => rest.push(t),
            _ => rest,
        }
    }
}

/// The lines for the report among the first `n` gains.
pub open spec fn failures_upto<T>(gains: Seq<Gain<T>>, n: nat) -> Seq<Seq<char>>
    decreases n,
{
    if n == 0 {
        Seq::empty()
    } else {
        let rest = failures_upto(gains, (n - 1) as nat);
        match gains[n - 1] {
            Gain::Failure(line) => rest.push(line),
            _ => rest,
        }
    }
}

/// Every failure is reported: no file is skipped in silence.
pub proof fn law_every_failure_is_reported<T>(gains: Seq<Gain<T>>, n: nat, i: int)
    requires
        n <= gains.len(),
        0 <= i < n,
        gains[i] is Failure,
    ensures
        failures_upto(gains, n).contains(gains[i]->Failure_0),
    decreases n,
{
    let rest = failures_upto(gains, (n - 1) as nat);
    if i == n - 1 {
        let all = failures_upto(gains, n);
        assert(all[rest.len() as int] == gains[i]->Failure_0);
    } else {
        law_every_failure_is_reported(gains, (n - 1) as nat, i);
        let j = choose|j: int| 0 <= j < rest.len() && rest[j] == gains[i]->Failure_0;
        assert(failures_upto(gains, n)[j] == gains[i]->Failure_0);
    }
}

/// What a list of files that might be templates gives.
pub open spec fn template_gains(readings: Seq<TemplateReading>) -> Seq<Gain<InfraTemplate>> {
    Seq::new(readings.len(), |i: int| template_gain(readings[i]))
}

/// What a list of Terraform files gives.
pub open spec fn terraform_gains(readings: Seq<TerraformReading>) -> Seq<Gain<InfraTemplate>> {
    Seq::new(readings.len(), |i: int| terraform_gain(readings[i]))
}

/// The templates of a repository.
#[derive(Debug, PartialEq, Eq)]
pub struct TemplateSet {
    pub cloudformation: Vec<InfraTemplate>,
    /// The plans of Terraform. What they resolve comes before what its files declare.
    pub plans: Vec<InfraTemplate>,
    pub terraform: Vec<InfraTemplate>,
    pub diagnostics: Vec<String>,
}

fn report(lines: &mut Vec<String>, path: &str, between: &str, error: &str)
    ensures
        text::views(final(lines)@) == text::views(old(lines)@).push(path@ + between@ + error@),
{
    let ghost before = text::views(lines@);
    let line = text::concat3(path, between, error);
    let ghost lv = line@;
    lines.push(line);
    assert(text::views(lines@) =~= before.push(lv));
}

/// Sorts the templates of a repository. A file that the contracts claim is never a template.
pub fn extract_repo_templates(readings: Vec<TemplateReading>, terraform: Vec<TerraformReading>) -> (r: TemplateSet)
    ensures
        r.cloudformation@ == items_upto(template_gains(readings@), readings@.len()),
        r.plans@ == plans_upto(template_gains(readings@), readings@.len()),
        r.terraform@ == items_upto(terraform_gains(terraform@), terraform@.len()),
        text::views(r.diagnostics@) == failures_upto(template_gains(readings@), readings@.len()) + failures_upto(
            terraform_gains(terraform@),
            terraform@.len(),
        ),
{
    let ghost all = readings@;
    let ghost gains = template_gains(all);
    let mut cloudformation: Vec<InfraTemplate> = Vec::new();
    let mut plans: Vec<InfraTemplate> = Vec::new();
    let mut diagnostics: Vec<String> = Vec::new();
    assert(text::views(diagnostics@) =~= Seq::<Seq<char>>::empty());
    let mut left = readings;
    assert(left@ =~= all.skip(0));
    let ghost mut n: nat = 0;
    while left.len() > 0
        invariant
            n <= all.len(),
            gains == template_gains(all),
            left@ == all.skip(n as int),
            cloudformation@ == items_upto(gains, n),
            plans@ == plans_upto(gains, n),
            text::views(diagnostics@) == failures_upto(gains, n),
        decreases left@.len(),
    {
        let r = left.remove(0);
        assert(r == all[n as int]);
        assert(left@ =~= all.skip(n as int + 1));
        assert(gains[n as int] == template_gain(r));
        if !r.contract {
            match r.plan {
                Some(Ok(t)) => {
                    plans.push(t);
                },
                Some(Err(e)) => {
                    report(&mut diagnostics, r.path.as_str(), ": ", e.as_str());
                },
                None => match r.cfn {
                    CfnReading::Template(Ok(t)) => {
                        cloudformation.push(t);
                    },
                    CfnReading::Template(Err(e)) => {
                        report(&mut diagnostics, r.path.as_str(), ": ", e.as_str());
                    },
                    CfnReading::Malformed(e) => {
                        report(&mut diagnostics, r.path.as_str(), ": parse error: ", e.as_str());
                    },
                    CfnReading::NotCfn => {},
                },
            }
        }
        proof {
            n = n + 1;
        }
    }
    let ghost tall = terraform@;
    let ghost tgains = terraform_gains(tall);
    let ghost base = text::views(diagnostics@);
    let mut hcl: Vec<InfraTemplate> = Vec::new();
    let mut tleft = terraform;
    assert(tleft@ =~= tall.skip(0));
    assert(text::views(diagnostics@) =~= base + failures_upto(tgains, 0));
    let ghost mut m: nat = 0;
    while tleft.len() > 0
        invariant
            m <= tall.len(),
            tgains == terraform_gains(tall),
            tleft@ == tall.skip(m as int),
            hcl@ == items_upto(tgains, m),
            text::views(diagnostics@) == base + failures_upto(tgains, m),
        decreases tleft@.len(),
    {
        let r = tleft.remove(0);
        assert(r == tall[m as int]);
        assert(tleft@ =~= tall.skip(m as int + 1));
        assert(tgains[m as int] == terraform_gain(r));
        match r.template {
            Some(Ok(t)) => {
                hcl.push(t);
            },
            Some(Err(e)) => {
                report(&mut diagnostics, r.path.as_str(), ": ", e.as_str());
            },
            None => {},
        }
        proof {
            m = m + 1;
            assert(text::views(diagnostics@) =~= base + failures_upto(tgains, m));
        }
    }
    TemplateSet { cloudformation, plans, terraform: hcl, diagnostics }
}

/// What the contracts claim is never a template, whatever else it looks like.
pub proof fn law_contracts_come_first(r: TemplateReading)
    requires
        r.contract,
    ensures
        template_gain(r) == Gain::<InfraTemplate>::Nothing,
{
}

// ----------------------------------------------------------------------------------------------
// Terragrunt units
// ----------------------------------------------------------------------------------------------

/// Whether a file is a Terragrunt unit, by its name.
pub open spec fn is_unit_path(path: Seq<char>) -> bool {
    text::after_last(path, '/') == "terragrunt.hcl"@
}

/// Whether a file is a Terragrunt unit, by its name.
pub fn is_terragrunt_file(path: &str) -> (r: bool)
    ensures
        r == is_unit_path(path@),
{
    let name = text::after_last_of(path, '/');
    text::same(name.as_str(), "terragrunt.hcl")
}

/// What came of reading a file as a Terragrunt unit.
#[derive(Debug, PartialEq, Eq)]
pub struct UnitReading {
    pub path: String,
    pub unit: Result<TerragruntUnit, String>,
}

/// What a file gives.
pub open spec fn unit_gain(r: UnitReading) -> Gain<TerragruntUnit> {
    if !is_unit_path(r.path@) {
        Gain::Nothing
    } else {
        match r.unit {
            Ok(u) => Gain::Item(u),
            Err(e) => Gain::Failure(failure_line(r.path@, e@)),
        }
    }
}

/// What a list of files gives.
pub open spec fn unit_gains(readings: Seq<UnitReading>) -> Seq<Gain<TerragruntUnit>> {
    Seq::new(readings.len(), |i: int| unit_gain(readings[i]))
}

/// The Terragrunt units of a repository.
#[derive(Debug, PartialEq, Eq)]
pub struct UnitSet {
    pub units: Vec<TerragruntUnit>,
    pub diagnostics: Vec<String>,
}

/// Sorts the Terragrunt units of a repository from the other files of their kind.
pub fn extract_repo_terragrunt(readings: Vec<UnitReading>) -> (r: UnitSet)
    ensures
        r.units@ == items_upto(unit_gains(readings@), readings@.len()),
        text::views(r.diagnostics@) == failures_upto(unit_gains(readings@), readings@.len()),
{
    let ghost all = readings@;
    let ghost gains = unit_gains(all);
    let mut units: Vec<TerragruntUnit> = Vec::new();
    let mut diagnostics: Vec<String> = Vec::new();
    assert(text::views(diagnostics@) =~= Seq::<Seq<char>>::empty());
    let mut left = readings;
    assert(left@ =~= all.skip(0));
    let ghost mut n: nat = 0;
    while left.len() > 0
        invariant
            n <= all.len(),
            gains == unit_gains(all),
            left@ == all.skip(n as int),
            units@ == items_upto(gains, n),
            text::views(diagnostics@) == failures_upto(gains, n),
        decreases left@.len(),
    {
        let r = left.remove(0);
        assert(r == all[n as int]);
        assert(left@ =~= all.skip(n as int + 1));
        assert(gains[n as int] == unit_gain(r));
        if is_terragrunt_file(r.path.as_str()) {
            match r.unit {
                Ok(u) => {
                    units.push(u);
                },
                Err(e) => {
                    report(&mut diagnostics, r.path.as_str(), ": ", e.as_str());
                },
            }
        }
        proof {
            n = n + 1;
        }
    }
    UnitSet { units, diagnostics }
}

// ----------------------------------------------------------------------------------------------
// Schemas
// ----------------------------------------------------------------------------------------------

/// What came of reading a file as a schema.
#[derive(Debug, PartialEq, Eq)]
pub struct SchemaReading {
    pub path: String,
    pub schema: Result<SchemaModel, String>,
    /// Whether its text looks like the definition of a schema.
    pub looks_like_ddl: bool,
}

/// What a file gives: a schema where it declares a table, and a report only where it looks like a
/// schema.
pub open spec fn schema_gain(r: SchemaReading) -> Gain<SchemaModel> {
    match r.schema {
        Ok(m) => if m.tables@.len() > 0 {
            Gain::Item(m)
        } else {
            Gain::Nothing
        },
        Err(e) => if r.looks_like_ddl {
            Gain::Failure(parse_error_line(r.path@, e@))
        } else {
            Gain::Nothing
        },
    }
}

/// What a list of files gives.
pub open spec fn schema_gains(readings: Seq<SchemaReading>) -> Seq<Gain<SchemaModel>> {
    Seq::new(readings.len(), |i: int| schema_gain(readings[i]))
}

/// The schemas of a repository.
#[derive(Debug, PartialEq, Eq)]
pub struct SchemaSet {
    pub schemas: Vec<SchemaModel>,
    pub diagnostics: Vec<String>,
}

/// Sorts the schemas of a repository from files that only query.
pub fn extract_repo_schemas(readings: Vec<SchemaReading>) -> (r: SchemaSet)
    ensures
        r.schemas@ == items_upto(schema_gains(readings@), readings@.len()),
        text::views(r.diagnostics@) == failures_upto(schema_gains(readings@), readings@.len()),
{
    let ghost all = readings@;
    let ghost gains = schema_gains(all);
    let mut schemas: Vec<SchemaModel> = Vec::new();
    let mut diagnostics: Vec<String> = Vec::new();
    assert(text::views(diagnostics@) =~= Seq::<Seq<char>>::empty());
    let mut left = readings;
    assert(left@ =~= all.skip(0));
    let ghost mut n: nat = 0;
    while left.len() > 0
        invariant
            n <= all.len(),
            gains == schema_gains(all),
            left@ == all.skip(n as int),
            schemas@ == items_upto(gains, n),
            text::views(diagnostics@) == failures_upto(gains, n),
        decreases left@.len(),
    {
        let r = left.remove(0);
        assert(r == all[n as int]);
        assert(left@ =~= all.skip(n as int + 1));
        assert(gains[n as int] == schema_gain(r));
        match r.schema {
            Ok(m) => {
                if m.tables.len() > 0 {
                    schemas.push(m);
                }
            },
            Err(e) => {
                if r.looks_like_ddl {
                    report(&mut diagnostics, r.path.as_str(), ": parse error: ", e.as_str());
                }
            },
        }
        proof {
            n = n + 1;
        }
    }
    SchemaSet { schemas, diagnostics }
}

} // verus!
