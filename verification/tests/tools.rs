use prop_rs::commands::{
    choose_area, failure_notes, object_kind_name, parse_assignment, property_line, serial_parts,
    AreaChoice, ErrorOutputMode, InspectArgs, Inspection, OpenFailure, ResetArgs, ResetMode,
};
use prop_rs::context_list::SplitContext;
use prop_rs::deploy::{
    resolve_target, BuildProfile, DeployArgs, DeployStep, Target, TrialArgs,
};
use prop_rs::property_context::ContextStorage;
use prop_rs::resetprop::{parse_line, ResetProp};
use prop_rs::sys_prop::{
    bypasses_service, route_set, strip_appcompat_prefix, SetRoute, Wait, WaitAction, WaitEvent,
};
use prop_rs::{PropAreaObjectKind, PropertyContext};

fn pairs(list: &[(&str, &str)]) -> Vec<(String, String)> {
    list.iter().map(|(n, v)| (n.to_string(), v.to_string())).collect()
}

fn flags() -> ResetProp {
    ResetProp {
        skip_svc: false,
        persistent: false,
        persist_only: false,
        verbose: false,
        show_context: false,
    }
}

#[test]
fn writes_take_the_right_way() {
    assert_eq!(route_set("sys.a", "1", false), SetRoute::Service);
    assert_eq!(route_set("sys.a", "1", true), SetRoute::Direct);
    assert_eq!(route_set("ro.a", "1", false), SetRoute::Direct);
    assert_eq!(route_set("ro.a", &"x".repeat(500), false), SetRoute::Direct);
    assert_eq!(
        route_set("sys.a", &"x".repeat(92), true),
        SetRoute::TooLong { len: 92, max_len: 92 }
    );
    assert_eq!(route_set("sys.a", &"x".repeat(91), true), SetRoute::Direct);
    assert!(bypasses_service("ro.x", false));
    assert!(!bypasses_service("rox", false));
}

#[test]
fn override_prefixes_are_stripped() {
    assert_eq!(strip_appcompat_prefix("ro.appcompat_override.ro.a"), "ro.a");
    assert_eq!(strip_appcompat_prefix("ro.appcompat_override."), "");
    assert_eq!(strip_appcompat_prefix("ro.a"), "ro.a");
    assert_eq!(strip_appcompat_prefix("ro.appcompat_override.\u{e9}"), "\u{e9}");
}

fn drive(wait: &mut Wait, events: Vec<WaitEvent>) -> WaitAction {
    for event in &events {
        wait.advance(event);
    }
    wait.action()
}

#[test]
fn waiting_for_a_property_to_be_there() {
    let mut wait = Wait::new(None, true, true);
    assert_eq!(wait.action(), WaitAction::Find);
    assert_eq!(drive(&mut wait, vec![WaitEvent::Found(false)]), WaitAction::CheckTime);
    assert_eq!(
        drive(&mut wait, vec![WaitEvent::Time { expired: false }]),
        WaitAction::SleepOnAll
    );
    assert_eq!(drive(&mut wait, vec![WaitEvent::Woken { changed: true }]), WaitAction::Find);
    assert_eq!(drive(&mut wait, vec![WaitEvent::Found(true)]), WaitAction::Finish(true));
}

#[test]
fn waiting_for_a_value_to_change() {
    let mut wait = Wait::new(Some("old".to_owned()), false, false);
    assert_eq!(drive(&mut wait, vec![WaitEvent::Found(true)]), WaitAction::Read);
    assert_eq!(
        drive(&mut wait, vec![WaitEvent::Value(Some("old".to_owned()))]),
        WaitAction::CheckTime
    );
    // Without a time limit the time does not matter.
    assert_eq!(
        drive(&mut wait, vec![WaitEvent::Time { expired: true }]),
        WaitAction::SleepOnProperty
    );
    assert_eq!(
        drive(&mut wait, vec![WaitEvent::Woken { changed: false }, WaitEvent::Value(None)]),
        WaitAction::CheckTime
    );
    assert_eq!(
        drive(
            &mut wait,
            vec![
                WaitEvent::Time { expired: false },
                WaitEvent::Woken { changed: true },
                WaitEvent::Value(Some("new".to_owned())),
            ]
        ),
        WaitAction::Finish(true)
    );
}

#[test]
fn what_is_there_needs_no_waiting() {
    let up = || WaitEvent::Time { expired: true };
    let mut wait = Wait::new(None, true, true);
    assert_eq!(drive(&mut wait, vec![up(), WaitEvent::Found(true), up()]), WaitAction::Finish(true));
    let mut wait = Wait::new(Some("old".to_owned()), true, true);
    assert_eq!(
        drive(
            &mut wait,
            vec![
                up(),
                WaitEvent::Found(true),
                up(),
                WaitEvent::Value(Some("other".to_owned())),
                up(),
            ]
        ),
        WaitAction::Finish(true)
    );
}

#[test]
fn waiting_ends_with_the_time() {
    let mut wait = Wait::new(None, true, true);
    assert_eq!(
        drive(&mut wait, vec![WaitEvent::Found(false), WaitEvent::Time { expired: true }]),
        WaitAction::Finish(false)
    );
    let mut wait = Wait::new(Some("v".to_owned()), true, true);
    assert_eq!(
        drive(
            &mut wait,
            vec![
                WaitEvent::Found(true),
                WaitEvent::Value(Some("v".to_owned())),
                WaitEvent::Time { expired: false },
                WaitEvent::Woken { changed: false },
            ]
        ),
        WaitAction::Finish(false)
    );
}

#[test]
fn lookups_ask_the_right_sources() {
    let some = |s: &str| Some(s.to_owned());
    let plain = flags();
    assert!(plain.asks_system());
    assert_eq!(plain.get("persist.a", None, some("s"), some("p")), some("s"));
    assert_eq!(plain.get("persist.a", None, None, some("p")), None);
    let both = ResetProp { persistent: true, ..flags() };
    assert!(both.asks_storage("persist.a", false));
    assert!(!both.asks_storage("persist.a", true));
    assert!(!both.asks_storage("ro.a", false));
    assert_eq!(both.get("persist.a", None, None, some("p")), some("p"));
    assert_eq!(both.get("ro.a", None, None, some("p")), None);
    let stored = ResetProp { persist_only: true, ..flags() };
    assert!(!stored.asks_system());
    assert_eq!(stored.get("persist.a", None, some("s"), some("p")), some("p"));
    let labels = ResetProp { show_context: true, ..flags() };
    assert_eq!(labels.get("ro.a", some("u:c"), some("s"), None), some("u:c"));
}

#[test]
fn storage_is_written_where_the_service_is_not_asked() {
    let rp = ResetProp { persistent: true, skip_svc: true, ..flags() };
    assert!(rp.stores_set("persist.a"));
    assert!(!rp.stores_set("ro.a"));
    assert!(!ResetProp { persistent: true, ..flags() }.stores_set("persist.a"));
    assert!(!ResetProp { skip_svc: true, ..flags() }.stores_set("persist.a"));
    let tool = ResetProp { persistent: true, ..flags() };
    assert!(tool.tool_stores_set("persist.a"));
    assert!(rp.tool_stores_set("persist.a"));
    assert!(!tool.tool_stores_set("ro.a"));
    assert!(!flags().tool_stores_set("persist.a"));
    assert!(rp.stores_delete("persist.a", true));
    assert!(!rp.stores_delete("persist.a", false));
    assert!(!rp.stores_delete("sys.a", true));
}

#[test]
fn listings_are_merged_and_sorted() {
    let system = pairs(&[("sys.b", "1"), ("persist.a", "live"), ("ro.c", "3")]);
    let stored = pairs(&[("persist.a", "kept"), ("persist.z", "9")]);
    assert_eq!(
        flags().list_all(system.clone(), stored.clone(), None),
        pairs(&[("persist.a", "live"), ("ro.c", "3"), ("sys.b", "1")])
    );
    let both = ResetProp { persistent: true, ..flags() };
    assert_eq!(
        both.list_all(system.clone(), stored.clone(), None),
        pairs(&[("persist.a", "kept"), ("persist.z", "9"), ("ro.c", "3"), ("sys.b", "1")])
    );
    let only = ResetProp { persist_only: true, ..flags() };
    assert_eq!(
        only.list_all(system.clone(), stored.clone(), None),
        pairs(&[("persist.a", "kept"), ("persist.z", "9")])
    );
    let mut list = SplitContext::new();
    list.load_file("ro. u:ro\n* u:any");
    let context = PropertyContext::new(ContextStorage::Split(list));
    let labels = ResetProp { show_context: true, ..flags() };
    assert_eq!(
        labels.list_all(system.clone(), vec![], Some(&context)),
        pairs(&[("persist.a", "u:any"), ("ro.c", "u:ro"), ("sys.b", "u:any")])
    );
    assert_eq!(
        labels.list_all(system, vec![], None),
        pairs(&[("persist.a", ""), ("ro.c", ""), ("sys.b", "")])
    );
}

#[test]
fn lines_of_property_files() {
    let parsed = |s: &str| parse_line(s);
    assert_eq!(parsed(" ro.a = 1 = 2 "), Some(("ro.a".to_owned(), "1 = 2".to_owned())));
    assert_eq!(parsed("ro.a="), Some(("ro.a".to_owned(), "".to_owned())));
    assert_eq!(parsed("# ro.a=1"), None);
    assert_eq!(parsed("   "), None);
    assert_eq!(parsed("ro.a"), None);
    assert_eq!(parsed(" =1"), None);
    let lines: Vec<String> =
        ["a=1", "# b=2", "", "a = 3"].iter().map(|line| line.to_string()).collect();
    assert_eq!(ResetProp::load_props(&lines), pairs(&[("a", "1"), ("a", "3")]));
}

#[test]
fn assignments() {
    assert_eq!(parse_assignment("a=b=c"), Ok(("a".to_owned(), "b=c".to_owned())));
    assert_eq!(parse_assignment("a="), Ok(("a".to_owned(), "".to_owned())));
    assert_eq!(parse_assignment("=b"), Err("key must not be empty"));
    assert_eq!(parse_assignment("ab"), Err("assignment must be in key=value form"));
}

#[test]
fn modes_of_resetprop() {
    let none = ResetArgs { wait: false, delete: false, compact: false, file: false, name: false, value: false };
    assert_eq!(none.choose_mode(), Ok(ResetMode::List));
    assert_eq!(ResetArgs { name: true, ..none }.choose_mode(), Ok(ResetMode::Get));
    assert_eq!(
        ResetArgs { name: true, value: true, ..none }.choose_mode(),
        Ok(ResetMode::Assign)
    );
    assert_eq!(
        ResetArgs { value: true, ..none }.choose_mode(),
        Err("property name is required")
    );
    assert_eq!(ResetArgs { file: true, ..none }.choose_mode(), Ok(ResetMode::LoadFile));
    assert_eq!(
        ResetArgs { wait: true, ..none }.choose_mode(),
        Err("--wait requires a property name")
    );
    assert_eq!(
        ResetArgs { delete: true, ..none }.choose_mode(),
        Err("--delete requires a property name")
    );
    assert_eq!(
        ResetArgs { wait: true, delete: true, name: true, ..none }.choose_mode(),
        Err("multiple operation modes detected")
    );
    assert_eq!(ResetArgs { compact: true, ..none }.choose_mode(), Ok(ResetMode::Compact));
    assert_eq!(
        ResetArgs { compact: true, file: true, ..none }.choose_mode(),
        Err("multiple operation modes detected")
    );
}

#[test]
fn modes_of_the_inspection_helper() {
    let none = InspectArgs {
        serial: false,
        area_path: false,
        slot: false,
        scan: false,
        name: true,
        value: false,
    };
    assert_eq!(none.choose_inspection(), Err("exactly one inspection mode is required"));
    let serial = InspectArgs { serial: true, ..none };
    assert_eq!(serial.choose_inspection(), Ok(Inspection::Serial));
    assert_eq!(
        InspectArgs { scan: true, ..serial }.choose_inspection(),
        Err("exactly one inspection mode is required")
    );
    assert_eq!(
        InspectArgs { name: false, ..serial }.choose_inspection(),
        Err("an inspection mode requires a property name")
    );
    assert_eq!(
        InspectArgs { value: true, ..serial }.choose_inspection(),
        Err("inspection commands do not accept a property value")
    );
    assert_eq!(
        InspectArgs { scan: true, ..none }.choose_inspection(),
        Ok(Inspection::Allocations)
    );
    assert_eq!(InspectArgs { slot: true, ..none }.choose_inspection(), Ok(Inspection::Slot));
    assert_eq!(
        InspectArgs { area_path: true, ..none }.choose_inspection(),
        Ok(Inspection::AreaPath)
    );
}

#[test]
fn areas_are_chosen_in_one_way() {
    assert_eq!(choose_area(true, false), Ok(AreaChoice::ByContext));
    assert_eq!(choose_area(false, true), Ok(AreaChoice::ByPath));
    assert_eq!(
        choose_area(false, false),
        Err("area: exactly one of --context or --path is required")
    );
    assert_eq!(
        choose_area(true, true),
        Err("area: --context and --path are mutually exclusive")
    );
}

#[test]
fn names_lines_and_parts() {
    assert_eq!(object_kind_name(PropAreaObjectKind::DirtyBackup), "dirty-backup");
    assert_eq!(object_kind_name(PropAreaObjectKind::LongValue), "long-value");
    assert_eq!(property_line(Some("u:c"), "a", "1"), "[u:c] a=1");
    assert_eq!(property_line(None, "a", "1"), "a=1");
    assert_eq!(serial_parts((5 << 24) | 6), (6, 5));
    assert!(ErrorOutputMode::Auto.enabled(true));
    assert!(!ErrorOutputMode::Auto.enabled(false));
    assert!(ErrorOutputMode::On.enabled(false));
    assert!(!ErrorOutputMode::Off.enabled(true));
}

#[test]
fn failures_are_summed_up() {
    assert_eq!(failure_notes(&vec![]), Vec::<String>::new());
    let mut failures = vec![OpenFailure::Missing, OpenFailure::Denied, OpenFailure::Missing];
    for i in 0..5 {
        failures.push(OpenFailure::Other(format!("e{i}")));
    }
    assert_eq!(
        failure_notes(&failures),
        vec![
            "note: skipped 1 prop area(s) due to permission denied",
            "note: skipped 2 prop area(s) that do not exist",
            "warning: e0",
            "warning: e1",
            "warning: e2",
            "warning: suppressed 2 additional prop area error(s)",
        ]
    );
}

#[test]
fn targets_are_known_by_both_names() {
    assert_eq!(resolve_target("arm64-v8a"), Ok(Target::Aarch64));
    assert_eq!(resolve_target("i686-linux-android"), Ok(Target::I686));
    assert_eq!(resolve_target("x86_64"), Ok(Target::X86_64));
    assert_eq!(resolve_target("armeabi-v7a").unwrap().rust_target(), "armv7-linux-androideabi");
    assert!(resolve_target("mips").unwrap_err().starts_with("unsupported --target 'mips'. "));
    assert_eq!(BuildProfile::Debug.as_dir(), "debug");
}

fn run(program: &str, args: &[&str], label: &str) -> DeployStep {
    DeployStep::Run {
        program: program.to_owned(),
        args: args.iter().map(|s| s.to_string()).collect(),
        label: label.to_owned(),
    }
}

fn require(path: &str, complaint: &str) -> DeployStep {
    DeployStep::Require { path: path.to_owned(), complaint: complaint.to_owned() }
}

#[test]
fn plain_deployment() {
    let args = DeployArgs {
        target: Target::Aarch64,
        profile: BuildProfile::Debug,
        serial: None,
        remote: "/r/sysprop".to_owned(),
        adb: "adb".to_owned(),
        cargo: "cargo".to_owned(),
        package: None,
        tool: "sysprop".to_owned(),
        trial: None,
    };
    let local = "target/aarch64-linux-android/debug/sysprop";
    assert_eq!(
        args.plan(),
        vec![
            run("cargo", &["ndk", "-t", "arm64-v8a", "build", "--bin", "sysprop"], "cargo ndk build"),
            require(local, &format!("built binary not found: {local}")),
            run("adb", &["push", local, "/r/sysprop"], "adb push"),
            run("adb", &["shell", "chmod", "+x", "/r/sysprop"], "adb shell chmod"),
            DeployStep::Say(format!("done: {local} -> /r/sysprop")),
            DeployStep::Say("run: adb shell /r/sysprop --help".to_owned()),
        ]
    );
}

#[test]
fn deployment_with_a_trial() {
    let args = DeployArgs {
        target: Target::X86_64,
        profile: BuildProfile::Release,
        serial: Some("S1".to_owned()),
        remote: "/r/p".to_owned(),
        adb: "adb".to_owned(),
        cargo: "cargo".to_owned(),
        package: Some("resetprop".to_owned()),
        tool: "resetprop".to_owned(),
        trial: Some(TrialArgs {
            helper: "resetprop-test-helper".to_owned(),
            remote_helper: "/r/h".to_owned(),
            script: "s.sh".to_owned(),
            remote_script: "/r/s.sh".to_owned(),
            command: None,
        }),
    };
    let steps = args.plan();
    assert_eq!(steps.len(), 15);
    assert_eq!(
        steps[2],
        run(
            "cargo",
            &["ndk", "-t", "x86_64", "build", "-p", "resetprop", "--bin", "resetprop-test-helper", "--release"],
            "cargo ndk build helper"
        )
    );
    assert_eq!(
        steps[7],
        run(
            "adb",
            &["-s", "S1", "push", "target/x86_64-linux-android/release/resetprop-test-helper", "/r/h"],
            "adb push resetprop-test-helper"
        )
    );
    assert_eq!(steps[9], require("s.sh", "test script not found: s.sh"));
    assert_eq!(
        steps[12],
        run(
            "adb",
            &["-s", "S1", "shell", "su", "-c", "RESETPROP=/r/p RESETPROP_TEST=/r/h sh /r/s.sh"],
            "adb shell su -c test"
        )
    );
    assert_eq!(
        steps[13],
        DeployStep::Say("done: target/x86_64-linux-android/release/resetprop -> /r/p".to_owned())
    );
    assert_eq!(
        steps[14],
        DeployStep::Say("run: adb -s S1 shell /r/p --help".to_owned())
    );
}
