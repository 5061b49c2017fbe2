use sley_odb::gc::plan_gc_repack;
use sley_odb::gc::strings;
use sley_odb::gc::GcRepackMode;
use sley_odb::gc::GcRepackPlanError;
use sley_odb::gc::GcRepackPlanOptions;

fn options() -> GcRepackPlanOptions<'static> {
    GcRepackPlanOptions {
        incremental: false,
        prune_expire: Some("2.weeks.ago"),
        cruft_packs: true,
        expire_to: None,
        max_cruft_size: None,
        repack_filter: None,
        repack_filter_to: None,
    }
}

#[test]
fn incremental_and_immediate_modes_take_precedence() {
    let incremental = plan_gc_repack(GcRepackPlanOptions {
        incremental: true,
        ..options()
    })
    .expect("incremental plan should succeed");
    assert_eq!(incremental.mode, GcRepackMode::Incremental);

    let immediate = plan_gc_repack(GcRepackPlanOptions {
        prune_expire: Some("now"),
        cruft_packs: false,
        ..options()
    })
    .expect("immediate plan should succeed");
    assert_eq!(immediate.mode, GcRepackMode::Immediate);
    assert_eq!(immediate.trace_args, strings(&["repack", "-d", "-l", "-a"]));
}

#[test]
fn cruft_plan_preserves_every_engine_option_in_order() {
    let plan = plan_gc_repack(GcRepackPlanOptions {
        expire_to: Some("archive"),
        max_cruft_size: Some(42),
        repack_filter: Some("blob:none"),
        repack_filter_to: Some("filtered"),
        ..options()
    })
    .expect("cruft plan should succeed");
    assert_eq!(plan.mode, GcRepackMode::Cruft);
    assert_eq!(
        plan.trace_args,
        strings(&[
            "repack",
            "-d",
            "-l",
            "--cruft",
            "--cruft-expiration=2.weeks.ago",
            "--max-cruft-size=42",
            "--expire-to=archive",
            "--filter=blob:none",
            "--filter-to=filtered",
        ])
    );
}

#[test]
fn reachable_plan_uses_unpack_expiration() {
    let plan = plan_gc_repack(GcRepackPlanOptions {
        cruft_packs: false,
        ..options()
    })
    .expect("reachable plan should succeed");
    assert_eq!(plan.mode, GcRepackMode::Reachable);
    assert_eq!(
        plan.trace_args,
        strings(&[
            "repack",
            "-d",
            "-l",
            "-A",
            "--unpack-unreachable=2.weeks.ago"
        ])
    );
}

#[test]
fn empty_prune_expiration_is_rejected() {
    let error = plan_gc_repack(GcRepackPlanOptions {
        prune_expire: Some(""),
        incremental: true,
        ..options()
    })
    .expect_err("an empty expiration is not a plan");
    assert_eq!(error, GcRepackPlanError::EmptyPruneExpiration);
    assert_eq!(error.message(), "empty GC prune expiration");
}

#[test]
fn immediate_discard_yields_to_an_archive_for_cruft() {
    let plan = plan_gc_repack(GcRepackPlanOptions {
        prune_expire: Some("now"),
        expire_to: Some("archive"),
        ..options()
    })
    .expect("cruft plan should succeed");
    assert_eq!(plan.mode, GcRepackMode::Cruft);
    assert_eq!(
        plan.trace_args,
        strings(&["repack", "-d", "-l", "--cruft", "--cruft-expiration=now", "--expire-to=archive"])
    );
}
