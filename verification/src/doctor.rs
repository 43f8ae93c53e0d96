//! A report on whether the program is set up to work.
//!
//! What is observed of the machine comes in as [`Facts`]; the checks say what it means.
use crate::content_detect::{kind_name, kind_text, ContentKind, KindModel};
use crate::json::{field_models, group_json_models, models, text_value, Json, JsonModel};
use crate::text::{copy_str, dec, decimal, same_text};
use vstd::prelude::*;

verus! {

#[derive(Debug, Clone, Copy, PartialEq, Eq, Structural)]
pub enum Status {
    Pass,
    Warn,
    Fail,
    Skipped,
}

pub open spec fn status_text(s: Status) -> Seq<char> {
    match s {
        Status::Pass => "pass"@,
        Status::Warn => "warn"@,
        Status::Fail => "fail"@,
        Status::Skipped => "skipped"@,
    }
}

impl Status {
    pub fn as_str(&self) -> (s: &'static str)
        ensures
            s@ == status_text(*self),
    {
        match self {
            Status::Pass => "pass",
            Status::Warn => "warn",
            Status::Fail => "fail",
            Status::Skipped => "skipped",
        }
    }
}

#[derive(Debug, Clone)]
pub struct Check {
    pub name: String,
    pub status: Status,
    pub message: String,
}

#[derive(Debug, Clone, Default)]
pub struct DoctorReport {
    pub checks: Vec<Check>,
}

pub struct CheckModel {
    pub name: Seq<char>,
    pub status: Status,
    pub message: Seq<char>,
}

impl View for Check {
    type V = CheckModel;

    open spec fn view(&self) -> CheckModel {
        CheckModel { name: self.name@, status: self.status, message: self.message@ }
    }
}

pub open spec fn check_models(v: Seq<Check>) -> Seq<CheckModel> {
    v.map_values(|c: Check| c@)
}

/// A check as a JSON object, its fields in the order of their names.
pub open spec fn check_json(c: CheckModel) -> JsonModel {
    JsonModel::Object(
        seq![
            ("message"@, JsonModel::Text(c.message)),
            ("name"@, JsonModel::Text(c.name)),
            ("status"@, JsonModel::Text(status_text(c.status))),
        ],
    )
}

pub open spec fn report_json(checks: Seq<CheckModel>) -> JsonModel {
    JsonModel::Object(
        seq![("checks"@, JsonModel::Array(checks.map_values(|c: CheckModel| check_json(c))))],
    )
}

fn json_of_check(c: &Check) -> (j: Json)
    ensures
        j@ == check_json(c@),
{
    broadcast use group_json_models;

    let fields = vec![
        (copy_str("message"), text_value(c.message.as_str())),
        (copy_str("name"), text_value(c.name.as_str())),
        (copy_str("status"), text_value(c.status.as_str())),
    ];
    assert(field_models(fields@) =~= seq![
        ("message"@, JsonModel::Text(c.message@)),
        ("name"@, JsonModel::Text(c.name@)),
        ("status"@, JsonModel::Text(status_text(c.status))),
    ]);
    Json::Object(fields)
}

impl DoctorReport {
    pub fn has_failures(&self) -> (b: bool)
        ensures
            b == exists|i: int|
                0 <= i < self.checks@.len() && (#[trigger] self.checks@[i]).status == Status::Fail,
    {
        let mut i: usize = 0;
        while i < self.checks.len()
            invariant
                i <= self.checks@.len(),
                forall|j: int| 0 <= j < i ==> (#[trigger] self.checks@[j]).status != Status::Fail,
            decreases self.checks.len() - i,
        {
            if self.checks[i].status == Status::Fail {
                return true;
            }
            i = i + 1;
        }
        false
    }

    pub fn to_json(&self) -> (j: Json)
        ensures
            j@ == report_json(check_models(self.checks@)),
    {
        broadcast use group_json_models;

        let ghost all = check_models(self.checks@);
        let mut out: Vec<Json> = Vec::new();
        let mut i: usize = 0;
        while i < self.checks.len()
            invariant
                i <= self.checks@.len(),
                all == check_models(self.checks@),
                out@.len() == i,
                forall|j: int| 0 <= j < i ==> (#[trigger] out@[j])@ == check_json(all[j]),
            decreases self.checks.len() - i,
        {
            out.push(json_of_check(&self.checks[i]));
            i = i + 1;
        }
        assert(models(out@) =~= all.map_values(|c: CheckModel| check_json(c)));
        let fields = vec![(copy_str("checks"), Json::Array(out))];
        assert(field_models(fields@) =~= seq![
            ("checks"@, JsonModel::Array(all.map_values(|c: CheckModel| check_json(c)))),
        ]);
        Json::Object(fields)
    }
}

/// What was found under the home directory.
#[derive(Debug)]
pub struct HomeFacts {
    pub cache_dir: String,
    pub cache_exists: bool,
    pub model_present: bool,
    pub skill_dir: String,
    pub hook_files_present: bool,
    /// The seconds since the hook last ran, where it ever did.
    pub last_firing: Option<u64>,
}

/// What was observed of the machine. Without the models, in a quick run, nothing is known of the
/// sample and of the load.
#[derive(Debug)]
pub struct Facts {
    /// The path of the running program, or why it is not known.
    pub program: Result<String, String>,
    pub version: String,
    /// What a sample of Rust source was taken for.
    pub sample_kind: Option<ContentKind>,
    /// Why the sentence model did not load, where it did not.
    pub dedup_load: Option<Result<(), String>>,
    pub home: Option<HomeFacts>,
    pub hf_home_set: bool,
}

fn check(name: &str, status: Status, message: String) -> (c: Check)
    ensures
        c@ == (CheckModel { name: name@, status, message: message@ }),
{
    Check { name: copy_str(name), status, message }
}

pub open spec fn result_view(r: Result<String, String>) -> Result<Seq<char>, Seq<char>> {
    match r {
        Ok(s) => Ok(s@),
        Err(e) => Err(e@),
    }
}

pub open spec fn binary_identity(program: Result<Seq<char>, Seq<char>>, version: Seq<char>) -> CheckModel {
    match program {
        Ok(path) => CheckModel {
            name: "binary_identity"@,
            status: Status::Pass,
            message: "running "@ + path + " (squishi v"@ + version + ")"@,
        },
        Err(e) => CheckModel {
            name: "binary_identity"@,
            status: Status::Warn,
            message: "could not resolve current_exe: "@ + e,
        },
    }
}

pub fn check_binary_identity(program: &Result<String, String>, version: &str) -> (c: Check)
    ensures
        c@ == binary_identity(result_view(*program), version@),
{
    match program {
        Ok(path) => {
            let mut message = copy_str("running ");
            message.append(path.as_str());
            message.append(" (squishi v");
            message.append(version);
            message.append(")");
            check("binary_identity", Status::Pass, message)
        },
        Err(e) => {
            let mut message = copy_str("could not resolve current_exe: ");
            message.append(e.as_str());
            check("binary_identity", Status::Warn, message)
        },
    }
}

pub open spec fn skipped(name: Seq<char>) -> CheckModel {
    CheckModel { name, status: Status::Skipped, message: "skipped (--quick)"@ }
}

/// The classifier works where it takes the sample for Rust.
pub open spec fn magika_loads(kind: KindModel) -> CheckModel {
    if kind == KindModel::Other("rust"@) {
        CheckModel {
            name: "magika_loads"@,
            status: Status::Pass,
            message: "candle-onnx magika model loads and classifies real Rust source correctly"@,
        }
    } else {
        CheckModel {
            name: "magika_loads"@,
            status: Status::Fail,
            message: "magika model loaded but misclassified a known-rust sample as "@ + kind_text(
                kind,
            ),
        }
    }
}

pub fn check_magika_loads(quick: bool, sample_kind: &Option<ContentKind>) -> (c: Check)
    requires
        !quick ==> sample_kind is Some,
    ensures
        c@ == (if quick {
            skipped("magika_loads"@)
        } else {
            magika_loads(sample_kind->0@)
        }),
{
    if quick {
        return check("magika_loads", Status::Skipped, copy_str("skipped (--quick)"));
    }
    match sample_kind {
        Some(kind) => {
            let is_rust = match kind {
                ContentKind::Other(label) => same_text(label.as_str(), "rust"),
                _ => false,
            };
            if is_rust {
                check(
                    "magika_loads",
                    Status::Pass,
                    copy_str(
                        "candle-onnx magika model loads and classifies real Rust source correctly",
                    ),
                )
            } else {
                let mut message = copy_str(
                    "magika model loaded but misclassified a known-rust sample as ",
                );
                let name = kind_name(kind);
                message.append(name.as_str());
                check("magika_loads", Status::Fail, message)
            }
        },
        None => check("magika_loads", Status::Skipped, copy_str("skipped (--quick)")),
    }
}

pub struct HomeModel {
    pub cache_dir: Seq<char>,
    pub cache_exists: bool,
    pub model_present: bool,
    pub skill_dir: Seq<char>,
    pub hook_files_present: bool,
    pub last_firing: Option<u64>,
}

impl View for HomeFacts {
    type V = HomeModel;

    open spec fn view(&self) -> HomeModel {
        HomeModel {
            cache_dir: self.cache_dir@,
            cache_exists: self.cache_exists,
            model_present: self.model_present,
            skill_dir: self.skill_dir@,
            hook_files_present: self.hook_files_present,
            last_firing: self.last_firing,
        }
    }
}

pub open spec fn home_view(h: Option<HomeFacts>) -> Option<HomeModel> {
    match h {
        Some(f) => Some(f@),
        None => None,
    }
}

pub open spec fn hf_home_note(set: bool) -> Seq<char> {
    if set {
        " (note: HF_HOME is set but squishi's hf_hub::Api::new() call does not honor it — always resolves to ~/.cache/huggingface/hub)"@
    } else {
        ""@
    }
}

pub open spec fn model_cache_location(home: Option<HomeModel>, hf_home_set: bool) -> CheckModel {
    match home {
        None => CheckModel {
            name: "model_cache_location"@,
            status: Status::Warn,
            message: "could not resolve home directory to locate hf-hub cache"@,
        },
        Some(h) => if h.cache_exists {
            CheckModel {
                name: "model_cache_location"@,
                status: Status::Pass,
                message: h.cache_dir + hf_home_note(hf_home_set) + " — model files "@ + (
                if h.model_present {
                    "already cached"@
                } else {
                    "not yet cached (first semantic-dedup call will download)"@
                }),
            }
        } else {
            CheckModel {
                name: "model_cache_location"@,
                status: Status::Warn,
                message: h.cache_dir + hf_home_note(hf_home_set)
                    + " does not exist yet (created on first download)"@,
            }
        },
    }
}

pub fn check_model_cache_location(home: &Option<HomeFacts>, hf_home_set: bool) -> (c: Check)
    ensures
        c@ == model_cache_location(home_view(*home), hf_home_set),
{
    match home {
        None => check(
            "model_cache_location",
            Status::Warn,
            copy_str("could not resolve home directory to locate hf-hub cache"),
        ),
        Some(h) => {
            let mut message = copy_str(h.cache_dir.as_str());
            if hf_home_set {
                message.append(
                    " (note: HF_HOME is set but squishi's hf_hub::Api::new() call does not honor it — always resolves to ~/.cache/huggingface/hub)",
                );
            } else {
                message.append("");
            }
            if h.cache_exists {
                message.append(" — model files ");
                if h.model_present {
                    message.append("already cached");
                } else {
                    message.append("not yet cached (first semantic-dedup call will download)");
                }
                check("model_cache_location", Status::Pass, message)
            } else {
                message.append(" does not exist yet (created on first download)");
                check("model_cache_location", Status::Warn, message)
            }
        },
    }
}

pub open spec fn load_error(r: Result<(), String>) -> Option<Seq<char>> {
    match r {
        Ok(_) => None,
        Err(e) => Some(e@),
    }
}

pub open spec fn semantic_dedup_loads(error: Option<Seq<char>>) -> CheckModel {
    match error {
        None => CheckModel {
            name: "semantic_dedup_loads"@,
            status: Status::Pass,
            message: "semantic dedup model loads"@,
        },
        Some(e) => CheckModel {
            name: "semantic_dedup_loads"@,
            status: Status::Fail,
            message: "semantic dedup failed to load: "@ + e,
        },
    }
}

pub fn check_semantic_dedup_loads(quick: bool, load: &Option<Result<(), String>>) -> (c: Check)
    requires
        !quick ==> load is Some,
    ensures
        c@ == (if quick {
            skipped("semantic_dedup_loads"@)
        } else {
            semantic_dedup_loads(load_error(load->0))
        }),
{
    if quick {
        return check("semantic_dedup_loads", Status::Skipped, copy_str("skipped (--quick)"));
    }
    match load {
        Some(Err(e)) => {
            let mut message = copy_str("semantic dedup failed to load: ");
            message.append(e.as_str());
            check("semantic_dedup_loads", Status::Fail, message)
        },
        _ => check("semantic_dedup_loads", Status::Pass, copy_str("semantic dedup model loads")),
    }
}

/// An age in the largest unit of which there is at least one.
pub open spec fn age_text(secs: nat) -> Seq<char> {
    if secs < 60 {
        dec(secs) + "s"@
    } else if secs < 3600 {
        dec(secs / 60) + "m"@
    } else if secs < 86400 {
        dec(secs / 3600) + "h"@
    } else {
        dec(secs / 86400) + "d"@
    }
}

pub fn format_age(secs: u64) -> (s: String)
    ensures
        s@ == age_text(secs as nat),
{
    let mut s: String;
    if secs < 60 {
        s = decimal(secs);
        s.append("s");
    } else if secs < 3600 {
        s = decimal(secs / 60);
        s.append("m");
    } else if secs < 86400 {
        s = decimal(secs / 3600);
        s.append("h");
    } else {
        s = decimal(secs / 86400);
        s.append("d");
    }
    s
}

pub open spec fn hook_proxy_signal(home: Option<HomeModel>) -> CheckModel {
    match home {
        None => CheckModel {
            name: "hook_proxy_signal"@,
            status: Status::Warn,
            message: "could not resolve home directory to locate hook files"@,
        },
        Some(h) => if !h.hook_files_present {
            CheckModel {
                name: "hook_proxy_signal"@,
                status: Status::Warn,
                message: "hook files not found at "@ + h.skill_dir
                    + " — this is a proxy signal, not a registration check (see issue #84439)"@,
            }
        } else {
            match h.last_firing {
                Some(age) => CheckModel {
                    name: "hook_proxy_signal"@,
                    status: Status::Pass,
                    message: "hook files present; last observed firing "@ + age_text(age as nat)
                        + " ago (proxy signal only, not a registration guarantee — see issue #84439)"@,
                },
                None => CheckModel {
                    name: "hook_proxy_signal"@,
                    status: Status::Warn,
                    message: "hook files present at "@ + h.skill_dir
                        + " but never observed firing yet (proxy signal only, not a registration guarantee)"@,
                },
            }
        },
    }
}

pub fn check_hook_proxy_signal(home: &Option<HomeFacts>) -> (c: Check)
    ensures
        c@ == hook_proxy_signal(home_view(*home)),
{
    match home {
        None => check(
            "hook_proxy_signal",
            Status::Warn,
            copy_str("could not resolve home directory to locate hook files"),
        ),
        Some(h) => {
            if !h.hook_files_present {
                let mut message = copy_str("hook files not found at ");
                message.append(h.skill_dir.as_str());
                message.append(
                    " — this is a proxy signal, not a registration check (see issue #84439)",
                );
                return check("hook_proxy_signal", Status::Warn, message);
            }
            match h.last_firing {
                Some(age) => {
                    let mut message = copy_str("hook files present; last observed firing ");
                    let text = format_age(age);
                    message.append(text.as_str());
                    message.append(
                        " ago (proxy signal only, not a registration guarantee — see issue #84439)",
                    );
                    check("hook_proxy_signal", Status::Pass, message)
                },
                None => {
                    let mut message = copy_str("hook files present at ");
                    message.append(h.skill_dir.as_str());
                    message.append(
                        " but never observed firing yet (proxy signal only, not a registration guarantee)",
                    );
                    check("hook_proxy_signal", Status::Warn, message)
                },
            }
        },
    }
}

/// The five checks in order. A quick run skips the two that load a model.
pub fn run(quick: bool, facts: &Facts) -> (report: DoctorReport)
    requires
        !quick ==> facts.sample_kind is Some && facts.dedup_load is Some,
    ensures
        check_models(report.checks@) == seq![
            binary_identity(result_view(facts.program), facts.version@),
            if quick {
                skipped("magika_loads"@)
            } else {
                magika_loads(facts.sample_kind->0@)
            },
            model_cache_location(home_view(facts.home), facts.hf_home_set),
            if quick {
                skipped("semantic_dedup_loads"@)
            } else {
                semantic_dedup_loads(load_error(facts.dedup_load->0))
            },
            hook_proxy_signal(home_view(facts.home)),
        ],
{
    let checks = vec![
        check_binary_identity(&facts.program, facts.version.as_str()),
        check_magika_loads(quick, &facts.sample_kind),
        check_model_cache_location(&facts.home, facts.hf_home_set),
        check_semantic_dedup_loads(quick, &facts.dedup_load),
        check_hook_proxy_signal(&facts.home),
    ];
    DoctorReport { checks }
}

/// Only the checks that load a model can fail.
pub proof fn quick_runs_never_fail(
    program: Result<Seq<char>, Seq<char>>,
    version: Seq<char>,
    home: Option<HomeModel>,
    hf_home_set: bool,
)
    ensures
        binary_identity(program, version).status != Status::Fail,
        model_cache_location(home, hf_home_set).status != Status::Fail,
        hook_proxy_signal(home).status != Status::Fail,
        skipped("magika_loads"@).status != Status::Fail,
        skipped("semantic_dedup_loads"@).status != Status::Fail,
{
}

/// When each check passes and when it fails. The program is known, the classifier takes the sample for
/// Rust, the cache is there, the sentence model loads, and the hooks were seen to run.
pub proof fn checks_pass_on_facts(
    program: Result<Seq<char>, Seq<char>>,
    version: Seq<char>,
    kind: KindModel,
    home: Option<HomeModel>,
    set: bool,
    error: Option<Seq<char>>,
)
    ensures
        binary_identity(program, version).status == (if program is Ok {
            Status::Pass
        } else {
            Status::Warn
        }),
        magika_loads(kind).status == (if kind == KindModel::Other("rust"@) {
            Status::Pass
        } else {
            Status::Fail
        }),
        model_cache_location(home, set).status == (if home is Some && (home->0).cache_exists {
            Status::Pass
        } else {
            Status::Warn
        }),
        semantic_dedup_loads(error).status == (if error is None {
            Status::Pass
        } else {
            Status::Fail
        }),
        hook_proxy_signal(home).status == (if home is Some && (home->0).hook_files_present && (
        home->0).last_firing is Some {
            Status::Pass
        } else {
            Status::Warn
        }),
        binary_identity(program, version).name == "binary_identity"@,
        magika_loads(kind).name == "magika_loads"@,
        model_cache_location(home, set).name == "model_cache_location"@,
        semantic_dedup_loads(error).name == "semantic_dedup_loads"@,
        hook_proxy_signal(home).name == "hook_proxy_signal"@,
{
}

/// An age is told in whole days, hours, minutes or seconds: the largest unit that it reaches.
pub proof fn ages_have_one_unit(secs: nat)
    ensures
        secs < 60 ==> age_text(secs) == dec(secs) + "s"@,
        60 <= secs < 60 * 60 ==> age_text(secs) == dec(secs / 60) + "m"@,
        60 * 60 <= secs < 24 * 60 * 60 ==> age_text(secs) == dec(secs / 3600) + "h"@,
        24 * 60 * 60 <= secs ==> age_text(secs) == dec(secs / 86400) + "d"@,
{
}

/// A report has each check with its name, its status in a word, and its message.
pub proof fn checks_are_reported(checks: Seq<CheckModel>, i: int)
    requires
        0 <= i < checks.len(),
    ensures
        ({
            let report = report_json(checks)->Object_0;
            let told = report[0].1->Array_0;
            let c = checks[i];
            let word = if c.status == Status::Pass {
                "pass"@
            } else if c.status == Status::Warn {
                "warn"@
            } else if c.status == Status::Fail {
                "fail"@
            } else {
                "skipped"@
            };
            &&& report.len() == 1
            &&& report[0].0 == "checks"@
            &&& told.len() == checks.len()
            &&& told[i] == JsonModel::Object(
                seq![
                    ("message"@, JsonModel::Text(c.message)),
                    ("name"@, JsonModel::Text(c.name)),
                    ("status"@, JsonModel::Text(word)),
                ],
            )
        }),
{
}

} // verus!
