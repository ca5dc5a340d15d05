//! Building the tools for a device and bringing them there: which commands
//! are run, in which order.
use vstd::prelude::*;
use vstd::string::StringExecFns;
use crate::name_order::{names_of, texts_of};
use crate::text::same_text;

verus! {

/// How the tools are built.
#[derive(Debug, Clone, Copy, PartialEq, Eq, Structural)]
pub enum BuildProfile {
    Debug,
    Release,
}

impl BuildProfile {
    /// The directory that builds of the profile go to.
    pub open spec fn directory(self) -> Seq<char> {
        match self {
            BuildProfile::Debug => "debug"@,
            BuildProfile::Release => "release"@,
        }
    }

    /// The directory that builds of the profile go to.
    pub fn as_dir(self) -> (r: &'static str)
        ensures
            r@ == self.directory(),
    {
        match self {
            BuildProfile::Debug => "debug",
            BuildProfile::Release => "release",
        }
    }
}

/// A kind of device.
#[derive(Debug, Clone, Copy, PartialEq, Eq, Structural)]
pub enum Target {
    Aarch64,
    Armv7,
    I686,
    X86_64,
}

impl Target {
    /// The name by which the compiler knows the kind.
    pub open spec fn triple(self) -> Seq<char> {
        match self {
            Target::Aarch64 => "aarch64-linux-android"@,
            Target::Armv7 => "armv7-linux-androideabi"@,
            Target::I686 => "i686-linux-android"@,
            Target::X86_64 => "x86_64-linux-android"@,
        }
    }

    /// The name by which the device knows the kind.
    pub open spec fn abi(self) -> Seq<char> {
        match self {
            Target::Aarch64 => "arm64-v8a"@,
            Target::Armv7 => "armeabi-v7a"@,
            Target::I686 => "x86"@,
            Target::X86_64 => "x86_64"@,
        }
    }

    /// Whether `input` names the kind.
    pub open spec fn is_called(self, input: Seq<char>) -> bool {
        input == self.triple() || input == self.abi()
    }

    /// The name by which the compiler knows the kind.
    pub fn rust_target(&self) -> (r: &'static str)
        ensures
            r@ == self.triple(),
    {
        match self {
            Target::Aarch64 => "aarch64-linux-android",
            Target::Armv7 => "armv7-linux-androideabi",
            Target::I686 => "i686-linux-android",
            Target::X86_64 => "x86_64-linux-android",
        }
    }

    /// The name by which the device knows the kind.
    pub fn ndk_abi(&self) -> (r: &'static str)
        ensures
            r@ == self.abi(),
    {
        match self {
            Target::Aarch64 => "arm64-v8a",
            Target::Armv7 => "armeabi-v7a",
            Target::I686 => "x86",
            Target::X86_64 => "x86_64",
        }
    }

    /// Whether `input` names the kind.
    fn answers_to(&self, input: &str) -> (r: bool)
        ensures
            r == self.is_called(input@),
    {
        same_text(input, self.rust_target()) || same_text(input, self.ndk_abi())
    }
}

/// The kind of device that `input` names: the first of the known ones.
pub open spec fn target_called(input: Seq<char>) -> Option<Target> {
    if Target::Aarch64.is_called(input) {
        Some(Target::Aarch64)
    } else if Target::Armv7.is_called(input) {
        Some(Target::Armv7)
    } else if Target::I686.is_called(input) {
        Some(Target::I686)
    } else if Target::X86_64.is_called(input) {
        Some(Target::X86_64)
    } else {
        None
    }
}

/// The complaint about an unknown kind of device.
pub open spec fn unknown_target(input: Seq<char>) -> Seq<char> {
    "unsupported --target '"@ + input
        + "'. supported rust targets: aarch64-linux-android, armv7-linux-androideabi, i686-linux-android, x86_64-linux-android; or NDK ABI: arm64-v8a, armeabi-v7a, x86, x86_64"@
}

/// The kind of device that `input` names, or a complaint.
pub fn resolve_target(input: &str) -> (r: core::result::Result<Target, String>)
    ensures
        match r {
            Ok(t) => target_called(input@) == Some(t),
            Err(e) => target_called(input@) is None && e@ == unknown_target(input@),
        },
{
    if Target::Aarch64.answers_to(input) {
        Ok(Target::Aarch64)
    } else if Target::Armv7.answers_to(input) {
        Ok(Target::Armv7)
    } else if Target::I686.answers_to(input) {
        Ok(Target::I686)
    } else if Target::X86_64.answers_to(input) {
        Ok(Target::X86_64)
    } else {
        let mut e = String::from_str("unsupported --target '");
        e.append(input);
        e.append(
            "'. supported rust targets: aarch64-linux-android, armv7-linux-androideabi, i686-linux-android, x86_64-linux-android; or NDK ABI: arm64-v8a, armeabi-v7a, x86, x86_64",
        );
        Err(e)
    }
}

/// A step of a deployment.
#[derive(Debug, Clone, PartialEq, Eq)]
pub enum DeployStep {
    /// Say something.
    Say(String),
    /// Run a program, and stop if it fails. `label` says what failed then.
    Run { program: String, args: Vec<String>, label: String },
    /// Stop with a complaint unless the file is there.
    Require { path: String, complaint: String },
}

/// A step of a deployment.
pub enum StepView {
    Say(Seq<char>),
    Run { program: Seq<char>, args: Seq<Seq<char>>, label: Seq<char> },
    Require { path: Seq<char>, complaint: Seq<char> },
}

impl View for DeployStep {
    type V = StepView;

    open spec fn view(&self) -> StepView {
        match *self {
            DeployStep::Say(s) => StepView::Say(s@),
            DeployStep::Run { program, args, label } => StepView::Run {
                program: program@,
                args: names_of(args@),
                label: label@,
            },
            DeployStep::Require { path, complaint } => StepView::Require {
                path: path@,
                complaint: complaint@,
            },
        }
    }
}

/// What is needed to try a tool out on the device.
#[derive(Debug, Clone, PartialEq, Eq)]
pub struct TrialArgs {
    /// The program that helps with the trial, and where it goes.
    pub helper: String,
    pub remote_helper: String,
    /// The script of the trial, and where it goes.
    pub script: String,
    pub remote_script: String,
    /// The command to run in place of the script.
    pub command: Option<String>,
}

/// What to build and where to bring it.
#[derive(Debug, Clone, PartialEq, Eq)]
pub struct DeployArgs {
    pub target: Target,
    pub profile: BuildProfile,
    /// The device, where there are several.
    pub serial: Option<String>,
    /// Where the tool goes.
    pub remote: String,
    pub adb: String,
    pub cargo: String,
    /// The package that the tool belongs to, where there are several.
    pub package: Option<String>,
    /// The tool.
    pub tool: String,
    pub trial: Option<TrialArgs>,
}

impl DeployArgs {
    /// The arguments that choose the device.
    pub open spec fn device(self) -> Seq<Seq<char>> {
        match self.serial {
            Some(serial) => seq!["-s"@, serial@],
            None => seq![],
        }
    }

    /// The command that builds a program.
    pub open spec fn build(self, program: Seq<char>, label: Seq<char>) -> StepView {
        let package = match self.package {
            Some(p) => seq!["-p"@, p@],
            None => seq![],
        };
        let release = if self.profile == BuildProfile::Release {
            seq!["--release"@]
        } else {
            seq![]
        };
        StepView::Run {
            program: self.cargo@,
            args: seq!["ndk"@, "-t"@, self.target.abi(), "build"@] + package + seq![
                "--bin"@,
                program,
            ] + release,
            label,
        }
    }

    /// Where a program that was built is found.
    pub open spec fn built(self, program: Seq<char>) -> Seq<char> {
        "target/"@ + self.target.triple() + "/"@ + self.profile.directory() + "/"@ + program
    }

    /// The commands that bring a file to the device and make it executable.
    pub open spec fn bring(
        self,
        local: Seq<char>,
        complaint: Seq<char>,
        remote: Seq<char>,
        push: Seq<char>,
        chmod: Seq<char>,
    ) -> Seq<StepView> {
        seq![
            StepView::Require { path: local, complaint: complaint + local },
            StepView::Run {
                program: self.adb@,
                args: self.device() + seq!["push"@, local, remote],
                label: push,
            },
            StepView::Run {
                program: self.adb@,
                args: self.device() + seq!["shell"@, "chmod"@, "+x"@, remote],
                label: chmod,
            },
        ]
    }

    /// What the trial runs on the device.
    pub open spec fn trial_command(self, trial: TrialArgs) -> Seq<char> {
        match trial.command {
            Some(c) => c@,
            None => "RESETPROP="@ + self.remote@ + " RESETPROP_TEST="@
                + trial.remote_helper@ + " sh "@ + trial.remote_script@,
        }
    }

    /// The steps of a trial, once the tool is on the device.
    pub open spec fn try_out(self, trial: TrialArgs) -> Seq<StepView> {
        self.bring(
            self.built(trial.helper@),
            "built helper binary not found: "@,
            trial.remote_helper@,
            "adb push "@ + trial.helper@,
            "adb shell chmod "@ + trial.helper@,
        ) + self.bring(
            trial.script@,
            "test script not found: "@,
            trial.remote_script@,
            "adb push test script"@,
            "adb shell chmod test script"@,
        ) + seq![
            StepView::Run {
                program: self.adb@,
                args: self.device() + seq!["shell"@, "su"@, "-c"@, self.trial_command(trial)],
                label: "adb shell su -c test"@,
            },
        ]
    }

    /// What is said in the end.
    pub open spec fn farewell(self) -> Seq<StepView> {
        let chosen = match self.serial {
            Some(serial) => "run: adb -s "@ + serial@ + " shell "@,
            None => "run: adb shell "@,
        };
        seq![
            StepView::Say("done: "@ + self.built(self.tool@) + " -> "@ + self.remote@),
            StepView::Say(chosen + self.remote@ + " --help"@),
        ]
    }

    /// All steps: build the tool, and the helper of the trial if there is one,
    /// bring the tool to the device, and try it out there.
    pub open spec fn steps(self) -> Seq<StepView> {
        let build = seq![self.build(self.tool@, "cargo ndk build"@)];
        let bring = self.bring(
            self.built(self.tool@),
            "built binary not found: "@,
            self.remote@,
            "adb push"@,
            "adb shell chmod"@,
        );
        match self.trial {
            None => build + bring + self.farewell(),
            Some(trial) => build + seq![
                StepView::Say("building test helper"@),
                self.build(trial.helper@, "cargo ndk build helper"@),
            ] + bring + self.try_out(trial) + self.farewell(),
        }
    }
}

/// What the steps of a list are.
pub open spec fn step_views(steps: Seq<DeployStep>) -> Seq<StepView> {
    steps.map_values(|s: DeployStep| s@)
}

/// Copies of some texts, behind those of `list`.
fn push_texts(list: &mut Vec<String>, more: &[&str])
    ensures
        names_of(final(list)@) == names_of(old(list)@) + texts_of(more@),
{
    let mut i: usize = 0;
    let ghost all = texts_of(more@);
    proof {
        assert(names_of(list@) =~= names_of(old(list)@) + all.take(0));
    }
    while i < more.len()
        invariant
            i <= more@.len(),
            all == texts_of(more@),
            names_of(list@) == names_of(old(list)@) + all.take(i as int),
        decreases more@.len() - i,
    {
        let copy = more[i].to_owned();
        proof {
            assert(all[i as int] == copy@);
            assert(names_of(list@.push(copy)) =~= names_of(list@).push(copy@));
            assert(all.take(i + 1) =~= all.take(i as int).push(copy@));
            assert(names_of(list@).push(copy@) =~= names_of(old(list)@) + all.take(i + 1));
        }
        list.push(copy);
        i = i + 1;
    }
    proof {
        assert(all.take(all.len() as int) =~= all);
    }
}

/// Put a step behind those of `list`.
fn push_step(list: &mut Vec<DeployStep>, step: DeployStep)
    ensures
        step_views(final(list)@) == step_views(old(list)@).push(step@),
{
    let ghost v = step@;
    list.push(step);
    proof {
        assert(step_views(list@) =~= step_views(old(list)@).push(v));
    }
}

impl DeployArgs {
    /// The arguments that choose the device.
    fn device_args(&self) -> (r: Vec<String>)
        ensures
            names_of(r@) == self.device(),
    {
        let mut args: Vec<String> = Vec::new();
        proof {
            assert(names_of(args@) =~= seq![]);
        }
        match &self.serial {
            Some(serial) => {
                let more = ["-s", serial.as_str()];
                push_texts(&mut args, &more);
                proof {
                    assert(names_of(args@) =~= self.device());
                }
            },
            None => {},
        }
        args
    }

    /// The command that builds a program.
    fn build_step(&self, program: &str, label: &str) -> (r: DeployStep)
        ensures
            r@ == self.build(program@, label@),
    {
        let mut args: Vec<String> = Vec::new();
        let first = ["ndk", "-t", self.target.ndk_abi(), "build"];
        push_texts(&mut args, &first);
        let ghost a0 = seq!["ndk"@, "-t"@, self.target.abi(), "build"@];
        proof {
            assert(names_of(args@) =~= a0);
        }
        match &self.package {
            Some(package) => {
                let more = ["-p", package.as_str()];
                push_texts(&mut args, &more);
                proof {
                    assert(names_of(args@) =~= a0 + seq!["-p"@, package@]);
                }
            },
            None => {
                proof {
                    assert(names_of(args@) =~= a0 + seq![]);
                }
            },
        }
        let ghost a1 = names_of(args@);
        let more = ["--bin", program];
        push_texts(&mut args, &more);
        let ghost a2 = a1 + seq!["--bin"@, program@];
        proof {
            assert(names_of(args@) =~= a2);
        }
        if self.profile == BuildProfile::Release {
            let more = ["--release"];
            push_texts(&mut args, &more);
            proof {
                assert(names_of(args@) =~= a2 + seq!["--release"@]);
            }
        } else {
            proof {
                assert(names_of(args@) =~= a2 + seq![]);
            }
        }
        DeployStep::Run { program: self.cargo.clone(), args, label: label.to_owned() }
    }

    /// Where a program that was built is found.
    pub fn built_path(&self, program: &str) -> (r: String)
        ensures
            r@ == self.built(program@),
    {
        let mut s = String::from_str("target/");
        s.append(self.target.rust_target());
        s.append("/");
        s.append(self.profile.as_dir());
        s.append("/");
        s.append(program);
        s
    }

    /// A command of the device.
    fn device_step(&self, more: &[&str], label: &str) -> (r: DeployStep)
        ensures
            r@ == (StepView::Run {
                program: self.adb@,
                args: self.device() + texts_of(more@),
                label: label@,
            }),
    {
        let mut args = self.device_args();
        push_texts(&mut args, more);
        DeployStep::Run { program: self.adb.clone(), args, label: label.to_owned() }
    }

    /// The commands that bring a file to the device and make it executable,
    /// behind those of `list`.
    fn push_bring(
        &self,
        list: &mut Vec<DeployStep>,
        local: &str,
        complaint: &str,
        remote: &str,
        push: &str,
        chmod: &str,
    )
        ensures
            step_views(final(list)@) == step_views(old(list)@) + self.bring(
                local@,
                complaint@,
                remote@,
                push@,
                chmod@,
            ),
    {
        let mut text = complaint.to_owned();
        text.append(local);
        push_step(list, DeployStep::Require { path: local.to_owned(), complaint: text });
        let copy = ["push", local, remote];
        push_step(list, self.device_step(&copy, push));
        let mark = ["shell", "chmod", "+x", remote];
        push_step(list, self.device_step(&mark, chmod));
        proof {
            assert(texts_of(copy@) =~= seq!["push"@, local@, remote@]);
            assert(texts_of(mark@) =~= seq!["shell"@, "chmod"@, "+x"@, remote@]);
            assert(step_views(list@) =~= step_views(old(list)@) + self.bring(
                local@,
                complaint@,
                remote@,
                push@,
                chmod@,
            ));
        }
    }

    /// What the trial runs on the device.
    fn trial_text(&self, trial: &TrialArgs) -> (r: String)
        ensures
            r@ == self.trial_command(*trial),
    {
        match &trial.command {
            Some(c) => c.clone(),
            None => {
                let mut s = String::from_str("RESETPROP=");
                s.append(self.remote.as_str());
                s.append(" RESETPROP_TEST=");
                s.append(trial.remote_helper.as_str());
                s.append(" sh ");
                s.append(trial.remote_script.as_str());
                s
            },
        }
    }

    /// The steps of a trial, behind those of `list`.
    fn push_trial(&self, list: &mut Vec<DeployStep>, trial: &TrialArgs)
        ensures
            step_views(final(list)@) == step_views(old(list)@) + self.try_out(*trial),
    {
        let mut push = String::from_str("adb push ");
        push.append(trial.helper.as_str());
        let mut chmod = String::from_str("adb shell chmod ");
        chmod.append(trial.helper.as_str());
        let local = self.built_path(trial.helper.as_str());
        self.push_bring(
            list,
            local.as_str(),
            "built helper binary not found: ",
            trial.remote_helper.as_str(),
            push.as_str(),
            chmod.as_str(),
        );
        self.push_bring(
            list,
            trial.script.as_str(),
            "test script not found: ",
            trial.remote_script.as_str(),
            "adb push test script",
            "adb shell chmod test script",
        );
        let command = self.trial_text(trial);
        let run = ["shell", "su", "-c", command.as_str()];
        push_step(list, self.device_step(&run, "adb shell su -c test"));
        proof {
            assert(texts_of(run@) =~= seq!["shell"@, "su"@, "-c"@, command@]);
            assert(step_views(list@) =~= step_views(old(list)@) + self.try_out(*trial));
        }
    }

    /// What is said in the end, behind the steps of `list`.
    fn push_farewell(&self, list: &mut Vec<DeployStep>)
        ensures
            step_views(final(list)@) == step_views(old(list)@) + self.farewell(),
    {
        let mut done = String::from_str("done: ");
        done.append(self.built_path(self.tool.as_str()).as_str());
        done.append(" -> ");
        done.append(self.remote.as_str());
        let mut run = match &self.serial {
            Some(serial) => {
                let mut s = String::from_str("run: adb -s ");
                s.append(serial.as_str());
                s.append(" shell ");
                s
            },
            None => String::from_str("run: adb shell "),
        };
        run.append(self.remote.as_str());
        run.append(" --help");
        proof {
            assert(done@ =~= "done: "@ + self.built(self.tool@) + " -> "@ + self.remote@);
        }
        push_step(list, DeployStep::Say(done));
        push_step(list, DeployStep::Say(run));
        proof {
            assert(step_views(list@) =~= step_views(old(list)@) + self.farewell());
        }
    }

    /// All steps of the deployment, in order.
    pub fn plan(&self) -> (r: Vec<DeployStep>)
        ensures
            step_views(r@) == self.steps(),
    {
        let mut list: Vec<DeployStep> = Vec::new();
        proof {
            assert(step_views(list@) =~= seq![]);
        }
        push_step(&mut list, self.build_step(self.tool.as_str(), "cargo ndk build"));
        if let Some(trial) = &self.trial {
            push_step(&mut list, DeployStep::Say(String::from_str("building test helper")));
            push_step(
                &mut list,
                self.build_step(trial.helper.as_str(), "cargo ndk build helper"),
            );
        }
        let local = self.built_path(self.tool.as_str());
        self.push_bring(
            &mut list,
            local.as_str(),
            "built binary not found: ",
            self.remote.as_str(),
            "adb push",
            "adb shell chmod",
        );
        if let Some(trial) = &self.trial {
            self.push_trial(&mut list, trial);
        }
        self.push_farewell(&mut list);
        proof {
            assert(step_views(list@) =~= self.steps());
        }
        list
    }
}

/// Every kind of device is found by both of its names, and by no other. An input
/// that is none of them is refused.
pub proof fn law_targets(t: Target, input: Seq<char>)
    ensures
        target_called(t.triple()) == Some(t),
        target_called(t.abi()) == Some(t),
        target_called(input) == Some(t) <==> input == t.triple() || input == t.abi(),
        target_called(input) is None <==> forall|u: Target| !(#[trigger] u.is_called(input)),
{
    reveal_strlit("aarch64-linux-android");
    reveal_strlit("armv7-linux-androideabi");
    reveal_strlit("i686-linux-android");
    reveal_strlit("x86_64-linux-android");
    reveal_strlit("arm64-v8a");
    reveal_strlit("armeabi-v7a");
    reveal_strlit("x86");
    reveal_strlit("x86_64");
    let names = seq![
        "aarch64-linux-android"@,
        "armv7-linux-androideabi"@,
        "i686-linux-android"@,
        "x86_64-linux-android"@,
        "arm64-v8a"@,
        "armeabi-v7a"@,
        "x86"@,
        "x86_64"@,
    ];
    assert(names[0].len() == 21 && names[1].len() == 23 && names[2].len() == 18 && names[3].len()
        == 20 && names[4].len() == 9 && names[5].len() == 11 && names[6].len() == 3
        && names[7].len() == 6);
    assert(Target::Aarch64.is_called(input) || !Target::Aarch64.is_called(input));
    assert(Target::Armv7.is_called(input) || !Target::Armv7.is_called(input));
    assert(Target::I686.is_called(input) || !Target::I686.is_called(input));
    assert(Target::X86_64.is_called(input) || !Target::X86_64.is_called(input));
}

/// A command of a deployment that runs on the chosen device.
pub open spec fn on_device(a: DeployArgs, args: Seq<Seq<char>>) -> bool {
    a.serial matches Some(serial) ==> args.len() >= 2 && args[0] == "-s"@ && args[1] == serial@
}

/// What a deployment without a trial does: it builds the tool for the target,
/// makes sure that it is there, brings it to the chosen device and makes it
/// executable. With a trial, the helper is built too before anything is brought,
/// and the command of the trial is the last one that is run.
pub proof fn law_deploy(a: DeployArgs)
    ensures
        ({
            let steps = a.steps();
            let local = a.built(a.tool@);
            let at: int = if a.trial is Some {
                3
            } else {
                1
            };
            &&& steps.len() == if a.trial is Some {
                15int
            } else {
                6
            }
            &&& (steps[0] matches StepView::Run { program, args, label } && program == a.cargo@
                && args.contains(a.tool@) && args.contains(a.target.abi()) && (a.profile
                == BuildProfile::Release ==> args.last() == "--release"@) && (a.profile
                == BuildProfile::Debug ==> args.last() == a.tool@))
            &&& (steps[0] matches StepView::Run { program, args, label } && (a.package matches Some(
                package,
            ) ==> args[4] == "-p"@ && args[5] == package@))
            &&& local == "target/"@ + a.target.triple() + (if a.profile == BuildProfile::Release {
                "/release/"@
            } else {
                "/debug/"@
            }) + a.tool@
            &&& (steps[at] matches StepView::Require { path, complaint } && path == local)
            &&& (steps[at + 1] matches StepView::Run { program, args, label } && program == a.adb@
                && on_device(a, args) && args[args.len() - 3] == "push"@ && args[args.len() - 2]
                == local && args.last() == a.remote@)
            &&& (steps[at + 2] matches StepView::Run { program, args, label } && program == a.adb@
                && on_device(a, args) && args[args.len() - 3] == "chmod"@ && args[args.len() - 2]
                == "+x"@ && args.last() == a.remote@)
            &&& a.trial matches Some(trial) ==> {
                &&& (steps[2] matches StepView::Run { program, args, label } && program == a.cargo@
                    && args.contains(trial.helper@))
                &&& (steps[7] matches StepView::Run { program, args, label } && program == a.adb@
                    && on_device(a, args) && args[args.len() - 2] == a.built(trial.helper@)
                    && args.last() == trial.remote_helper@)
                &&& (steps[10] matches StepView::Run { program, args, label } && program == a.adb@
                    && on_device(a, args) && args[args.len() - 2] == trial.script@ && args.last()
                    == trial.remote_script@)
                &&& (steps[12] matches StepView::Run { program, args, label } && program == a.adb@
                    && on_device(a, args) && args[args.len() - 3] == "su"@ && args.last()
                    == a.trial_command(trial))
            }
        }),
{
    reveal_strlit("/");
    reveal_strlit("debug");
    reveal_strlit("release");
    reveal_strlit("/debug/");
    reveal_strlit("/release/");
    assert("/debug/"@ =~= "/"@ + "debug"@ + "/"@);
    assert("/release/"@ =~= "/"@ + "release"@ + "/"@);
    assert(a.built(a.tool@) =~= "target/"@ + a.target.triple() + (if a.profile
        == BuildProfile::Release {
        "/release/"@
    } else {
        "/debug/"@
    }) + a.tool@);
    lemma_build_args(a, a.tool@, "cargo ndk build"@);
    if let Some(trial) = a.trial {
        lemma_build_args(a, trial.helper@, "cargo ndk build helper"@);
    }
}

proof fn lemma_build_args(a: DeployArgs, program: Seq<char>, label: Seq<char>)
    ensures
        (a.build(program, label) matches StepView::Run { program: p, args, label: l } && {
            &&& p == a.cargo@
            &&& args.contains(program)
            &&& args.contains(a.target.abi())
            &&& a.profile == BuildProfile::Release ==> args.last() == "--release"@
            &&& a.profile == BuildProfile::Debug ==> args.last() == program
        }),
{
    let args = a.build(program, label)->args;
    assert(args[2] == a.target.abi());
    let n: int = if a.package is Some {
        7
    } else {
        5
    };
    assert(args[n] == program);
}

} // verus!
