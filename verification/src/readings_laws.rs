//! What is read of a repository's files, told file by file.
use vstd::prelude::*;

use crate::contract::OperationDef;
use crate::infra::InfraTemplate;
use crate::model;
use crate::order;
use crate::readings;
use crate::readings::{CfnReading, Gain, SchemaReading, SpecReading, TemplateReading, TerraformReading, UnitReading};
use crate::text;

verus! {

// ----------------------------------------------------------------------------------------------
// Gains
// ----------------------------------------------------------------------------------------------

proof fn lemma_items<T>(gains: Seq<Gain<T>>, n: nat, hit: spec_fn(int) -> bool, item: spec_fn(int) -> T)
    requires
        n <= gains.len(),
        forall|i: int|
            0 <= i < gains.len() ==> (#[trigger] gains[i] is Item) == hit(i) && (hit(i) ==> gains[i]->Item_0 == item(i)),
    ensures
        order::picks(readings::items_upto(gains, n), n, hit, item),
    decreases n,
{
    if n > 0 {
        let m = (n - 1) as nat;
        lemma_items(gains, m, hit, item);
        assert((gains[m as int] is Item) == hit(m as int));
        order::lemma_picks_next(readings::items_upto(gains, m), readings::items_upto(gains, n), m, hit, item);
    } else {
        order::lemma_picks_none(hit, item);
    }
}

proof fn lemma_plans<T>(gains: Seq<Gain<T>>, n: nat, hit: spec_fn(int) -> bool, item: spec_fn(int) -> T)
    requires
        n <= gains.len(),
        forall|i: int|
            0 <= i < gains.len() ==> (#[trigger] gains[i] is Plan) == hit(i) && (hit(i) ==> gains[i]->Plan_0 == item(i)),
    ensures
        order::picks(readings::plans_upto(gains, n), n, hit, item),
    decreases n,
{
    if n > 0 {
        let m = (n - 1) as nat;
        lemma_plans(gains, m, hit, item);
        assert((gains[m as int] is Plan) == hit(m as int));
        order::lemma_picks_next(readings::plans_upto(gains, m), readings::plans_upto(gains, n), m, hit, item);
    } else {
        order::lemma_picks_none(hit, item);
    }
}

proof fn lemma_failures<T>(gains: Seq<Gain<T>>, n: nat, hit: spec_fn(int) -> bool, item: spec_fn(int) -> Seq<char>)
    requires
        n <= gains.len(),
        forall|i: int|
            0 <= i < gains.len() ==> (#[trigger] gains[i] is Failure) == hit(i) && (hit(i) ==> gains[i]->Failure_0
                == item(i)),
    ensures
        order::picks(readings::failures_upto(gains, n), n, hit, item),
    decreases n,
{
    if n > 0 {
        let m = (n - 1) as nat;
        lemma_failures(gains, m, hit, item);
        assert((gains[m as int] is Failure) == hit(m as int));
        order::lemma_picks_next(readings::failures_upto(gains, m), readings::failures_upto(gains, n), m, hit, item);
    } else {
        order::lemma_picks_none(hit, item);
    }
}

// ----------------------------------------------------------------------------------------------
// Templates
// ----------------------------------------------------------------------------------------------

/// Whether a file is a template of CloudFormation that can be read.
pub open spec fn is_template(r: TemplateReading) -> bool {
    !r.contract && r.plan is None && (r.cfn matches CfnReading::Template(x) && x is Ok)
}

/// Whether a file is a plan that can be read.
pub open spec fn is_plan(r: TemplateReading) -> bool {
    !r.contract && (r.plan matches Some(x) && x is Ok)
}

/// Whether a file is to be reported: a plan or a template that cannot be read.
pub open spec fn is_faulty(r: TemplateReading) -> bool {
    !r.contract && match r.plan {
        Some(x) => x is Err,
        None => r.cfn is Malformed || (r.cfn matches CfnReading::Template(x) && x is Err),
    }
}

/// What is reported of a file.
pub open spec fn fault_of(r: TemplateReading) -> Seq<char> {
    match r.plan {
        Some(x) => r.path@ + ": "@ + x->Err_0@,
        None => match r.cfn {
            CfnReading::Template(x) => r.path@ + ": "@ + x->Err_0@,
            CfnReading::Malformed(e) => r.path@ + ": parse error: "@ + e@,
            CfnReading::NotCfn => Seq::empty(),
        },
    }
}

/// The template of a file.
pub open spec fn template_of(r: TemplateReading) -> InfraTemplate {
    r.cfn->Template_0->Ok_0
}

/// The templates, the plans and the report of a list of files are those of its files, in their order:
/// no specification is a template, a plan is no template, and nothing that cannot be read is left out of
/// the report.
pub proof fn law_templates(rs: Seq<TemplateReading>)
    ensures
        order::picks(
            readings::items_upto(readings::template_gains(rs), rs.len()),
            rs.len(),
            |i: int| is_template(rs[i]),
            |i: int| template_of(rs[i]),
        ),
        order::picks(
            readings::plans_upto(readings::template_gains(rs), rs.len()),
            rs.len(),
            |i: int| is_plan(rs[i]),
            |i: int| rs[i].plan->0->Ok_0,
        ),
        order::picks(
            readings::failures_upto(readings::template_gains(rs), rs.len()),
            rs.len(),
            |i: int| is_faulty(rs[i]),
            |i: int| fault_of(rs[i]),
        ),
{
    let gains = readings::template_gains(rs);
    lemma_items(gains, rs.len(), |i: int| is_template(rs[i]), |i: int| template_of(rs[i]));
    lemma_plans(gains, rs.len(), |i: int| is_plan(rs[i]), |i: int| rs[i].plan->0->Ok_0);
    lemma_failures(gains, rs.len(), |i: int| is_faulty(rs[i]), |i: int| fault_of(rs[i]));
}

/// The templates and the report of a list of Terraform files are those of its files, in their order.
pub proof fn law_terraform(rs: Seq<TerraformReading>)
    ensures
        order::picks(
            readings::items_upto(readings::terraform_gains(rs), rs.len()),
            rs.len(),
            |i: int| (rs[i].template matches Some(x) && x is Ok),
            |i: int| rs[i].template->0->Ok_0,
        ),
        order::picks(
            readings::failures_upto(readings::terraform_gains(rs), rs.len()),
            rs.len(),
            |i: int| (rs[i].template matches Some(x) && x is Err),
            |i: int| rs[i].path@ + ": "@ + rs[i].template->0->Err_0@,
        ),
{
    let gains = readings::terraform_gains(rs);
    lemma_items(
        gains,
        rs.len(),
        |i: int| (rs[i].template matches Some(x) && x is Ok),
        |i: int| rs[i].template->0->Ok_0,
    );
    lemma_failures(
        gains,
        rs.len(),
        |i: int| (rs[i].template matches Some(x) && x is Err),
        |i: int| rs[i].path@ + ": "@ + rs[i].template->0->Err_0@,
    );
}

// ----------------------------------------------------------------------------------------------
// Units and schemas
// ----------------------------------------------------------------------------------------------

/// Whether a path is that of a unit: the name alone, or the name below a directory.
pub open spec fn names_unit(path: Seq<char>) -> bool {
    path == "terragrunt.hcl"@ || exists|dir: Seq<char>| path == #[trigger] (dir + seq!['/']) + "terragrunt.hcl"@
}

/// A file is a unit by its name.
pub proof fn law_unit_path(path: Seq<char>)
    ensures
        readings::is_unit_path(path) == names_unit(path),
{
    let name = "terragrunt.hcl"@;
    reveal_strlit("terragrunt.hcl");
    assert(!name.contains('/'));
    text::lemma_last_position(path, '/');
    if readings::is_unit_path(path) {
        match text::last_position(path, '/') {
            Some(i) => {
                assert(path =~= (path.take(i) + seq!['/']) + name);
            },
            None => {},
        }
    }
    if names_unit(path) {
        if path != name {
            let dir = choose|dir: Seq<char>| path == #[trigger] (dir + seq!['/']) + name;
            assert(path[dir.len() as int] == '/');
            assert forall|k: int| dir.len() < k < path.len() implies path[k] != '/' by {
                assert(path[k] == name[k - dir.len() - 1]);
                assert(name.contains(name[k - dir.len() - 1]));
            }
            let i = text::last_position(path, '/')->0;
            assert(i == dir.len());
            assert(path.skip(i + 1) =~= name);
        }
    }
}

/// The units and the report of a list of files are those of its files, in their order, where they are
/// units by their names.
pub proof fn law_units(rs: Seq<UnitReading>)
    ensures
        order::picks(
            readings::items_upto(readings::unit_gains(rs), rs.len()),
            rs.len(),
            |i: int| names_unit(rs[i].path@) && rs[i].unit is Ok,
            |i: int| rs[i].unit->Ok_0,
        ),
        order::picks(
            readings::failures_upto(readings::unit_gains(rs), rs.len()),
            rs.len(),
            |i: int| names_unit(rs[i].path@) && rs[i].unit is Err,
            |i: int| rs[i].path@ + ": "@ + rs[i].unit->Err_0@,
        ),
{
    let gains = readings::unit_gains(rs);
    let hit = |i: int| names_unit(rs[i].path@) && rs[i].unit is Ok;
    let miss = |i: int| names_unit(rs[i].path@) && rs[i].unit is Err;
    assert forall|i: int| 0 <= i < gains.len() implies (#[trigger] gains[i] is Item) == hit(i) && (gains[i] is Failure)
        == miss(i) by {
        law_unit_path(rs[i].path@);
    }
    lemma_items(gains, rs.len(), hit, |i: int| rs[i].unit->Ok_0);
    lemma_failures(gains, rs.len(), miss, |i: int| rs[i].path@ + ": "@ + rs[i].unit->Err_0@);
}

/// The schemas and the report of a list of files are those of its files, in their order: a schema
/// declares a table, and what cannot be read is reported where it looks like a schema.
pub proof fn law_schemas(rs: Seq<SchemaReading>)
    ensures
        order::picks(
            readings::items_upto(readings::schema_gains(rs), rs.len()),
            rs.len(),
            |i: int| rs[i].schema is Ok && rs[i].schema->Ok_0.tables@.len() > 0,
            |i: int| rs[i].schema->Ok_0,
        ),
        order::picks(
            readings::failures_upto(readings::schema_gains(rs), rs.len()),
            rs.len(),
            |i: int| rs[i].schema is Err && rs[i].looks_like_ddl,
            |i: int| rs[i].path@ + ": parse error: "@ + rs[i].schema->Err_0@,
        ),
{
    let gains = readings::schema_gains(rs);
    lemma_items(
        gains,
        rs.len(),
        |i: int| rs[i].schema is Ok && rs[i].schema->Ok_0.tables@.len() > 0,
        |i: int| rs[i].schema->Ok_0,
    );
    lemma_failures(
        gains,
        rs.len(),
        |i: int| rs[i].schema is Err && rs[i].looks_like_ddl,
        |i: int| rs[i].path@ + ": parse error: "@ + rs[i].schema->Err_0@,
    );
}

// ----------------------------------------------------------------------------------------------
// Operations
// ----------------------------------------------------------------------------------------------

proof fn lemma_operations(rs: Seq<SpecReading>, n: nat, op: OperationDef)
    requires
        n <= rs.len(),
    ensures
        readings::operations_upto(rs, n).contains(op) <==> exists|i: int|
            0 <= i < n && (#[trigger] rs[i] matches SpecReading::Operations(ops) && ops@.contains(op)),
    decreases n,
{
    if n > 0 {
        let m = (n - 1) as nat;
        let last = n - 1;
        lemma_operations(rs, m, op);
        let rest = readings::operations_upto(rs, m);
        if let SpecReading::Operations(ops) = rs[last] {
            model::lemma_joined(rest, ops@, op);
        }
    }
}

/// The operations of a list of files are those of its files.
pub proof fn law_operations(rs: Seq<SpecReading>, op: OperationDef)
    ensures
        readings::operations_of(rs).contains(op) <==> exists|i: int|
            0 <= i < rs.len() && (#[trigger] rs[i] matches SpecReading::Operations(ops) && ops@.contains(op)),
{
    lemma_operations(rs, rs.len(), op);
}

/// The operations of one list of files after another are those of the one after those of the other.
pub proof fn law_operations_in_order(a: Seq<SpecReading>, b: Seq<SpecReading>)
    ensures
        readings::operations_of(a + b) == readings::operations_of(a) + readings::operations_of(b),
    decreases b.len(),
{
    if b.len() == 0 {
        assert(a + b =~= a);
        assert(readings::operations_of(a) + readings::operations_of(b) =~= readings::operations_of(a));
    } else {
        let c = b.drop_last();
        law_operations_in_order(a, c);
        lemma_operations_begin(a + b, a + c, (a + c).len());
        lemma_operations_begin(b, c, c.len());
        assert((a + b)[(a + b).len() - 1] == b.last());
        assert(readings::operations_of(a + b) =~= readings::operations_of(a) + readings::operations_of(b));
    }
}

proof fn lemma_operations_begin(a: Seq<SpecReading>, b: Seq<SpecReading>, n: nat)
    requires
        n <= b.len() <= a.len(),
        forall|i: int| 0 <= i < b.len() ==> a[i] == #[trigger] b[i],
    ensures
        readings::operations_upto(a, n) == readings::operations_upto(b, n),
    decreases n,
{
    if n > 0 {
        lemma_operations_begin(a, b, (n - 1) as nat);
        assert(a[n - 1] == b[n - 1]);
    }
}

/// Where there are more diagnostics than are kept, the last line tells how many more there were.
pub proof fn law_capped(lines: Seq<Seq<char>>)
    ensures
        lines.len() > 20 ==> readings::capped(lines).len() == 21 && readings::capped(lines)[20] == "… and "@
            + text::decimal((lines.len() - 20) as nat) + " more infra template failure(s)"@,
        lines.len() > 20 ==> readings::capped(lines).take(20) == lines.take(20),
        lines.len() <= 20 ==> readings::capped(lines) == lines,
{
    if lines.len() > 20 {
        assert(readings::capped(lines).take(20) =~= lines.take(20));
    }
}

} // verus!
