//! What the window shows, and what its controls and the tray menu do.

use crate::binary32::Binary32;
use crate::recording;
use crate::settings::DEFAULT_GATE_HANGOVER_MS;
use crate::settings::DEFAULT_GATE_RELEASE_MS;
use crate::settings::DEFAULT_GATE_THRESHOLD;
use crate::state::AppState;
use crate::state::EnrollmentOrigin;
use crate::state::Grade;
use crate::state::Quality;
use crate::text;
use vstd::prelude::*;
use vstd::string::StringExecFns;

verus! {

/// Bits of `1.0e-6`: below this level a meter shows nothing.
pub const METER_FLOOR: u32 = 0x3586_37bd;

/// Bits of `60.0`: the span of a meter in decibels.
pub const METER_SPAN: u32 = 0x4270_0000;

/// How often a window that shows something live is painted again.
pub const REPAINT_MS: u64 = 100;

/// A colour on the screen.
#[derive(Debug, Clone, Copy, PartialEq, Eq, Structural)]
pub struct Colour {
    pub red: u8,
    pub green: u8,
    pub blue: u8,
}

/// What a level lights of a meter: -60 dBFS nothing, 0 dBFS everything.
pub open spec fn lit(rms: Binary32, db: Binary32) -> Binary32 {
    if rms.le(Binary32 { bits: METER_FLOOR }) {
        Binary32 { bits: 0 }
    } else {
        db.sum(Binary32 { bits: METER_SPAN }).quotient(Binary32 { bits: METER_SPAN }).clamped(
            Binary32 { bits: 0 },
            Binary32 { bits: 0x3f80_0000 },
        )
    }
}

/// What a level lights of a meter. `decibels` converts it to dBFS.
pub fn rms_to_bar<D>(rms: Binary32, decibels: &D) -> (r: Binary32) where
    D: Fn(Binary32) -> Binary32,

    requires
        !rms.le(Binary32 { bits: METER_FLOOR }) ==> decibels.requires((rms,)),
    ensures
        rms.le(Binary32 { bits: METER_FLOOR }) ==> r == (Binary32 { bits: 0 }),
        !rms.le(Binary32 { bits: METER_FLOOR }) ==> exists|db: Binary32| #[trigger]
            decibels.ensures((rms,), db) && r == lit(rms, db),
{
    if rms.at_most(Binary32 { bits: METER_FLOOR }) {
        return Binary32 { bits: 0 };
    }
    let db: Binary32 = decibels(rms);
    assert(decibels.ensures((rms,), db));
    db.plus(Binary32 { bits: METER_SPAN }).over(Binary32 { bits: METER_SPAN }).clamp(
        Binary32 { bits: 0 },
        Binary32 { bits: 0x3f80_0000 },
    )
}

proof fn lemma_meter_ends()
    ensures
        (Binary32 { bits: 0 }).le(Binary32 { bits: 0x3f80_0000 }),
        !(Binary32 { bits: 0 }).nan(),
        !(Binary32 { bits: 0x3f80_0000 }).nan(),
{
    crate::binary32::lemma_format();
    crate::binary32::lemma_one();
    reveal(Binary32::le);
    assert((Binary32 { bits: 0 }).units() == 0);
}

/// A meter never leaves its range, unless the level is no number.
pub proof fn law_meters_stay_in_range(rms: Binary32, db: Binary32)
    requires
        !db.sum(Binary32 { bits: METER_SPAN }).quotient(Binary32 { bits: METER_SPAN }).nan(),
    ensures
        (Binary32 { bits: 0 }).le(lit(rms, db)),
        lit(rms, db).le(Binary32 { bits: 0x3f80_0000 }),
{
    lemma_meter_ends();
    let a = Binary32 { bits: 0 };
    let b = Binary32 { bits: 0x3f80_0000 };
    let v = db.sum(Binary32 { bits: METER_SPAN }).quotient(Binary32 { bits: METER_SPAN });
    crate::binary32::lemma_total(a, a, a);
    crate::binary32::lemma_total(v, a, b);
    crate::binary32::lemma_total(b, v, b);
    crate::binary32::lemma_total(a, b, b);
    crate::binary32::lemma_total(b, b, b);
}

/// What the top of the window shows.
#[derive(Debug, Clone, Copy, PartialEq, Eq, Structural)]
pub enum Section {
    /// How far a recording has come.
    Progress,
    /// The enrolled profile.
    Profile,
    /// The invitation to enroll a voice.
    FirstRun,
}

/// What the light beside the meters shows.
#[derive(Debug, Clone, Copy, PartialEq, Eq, Structural)]
pub enum Light {
    Stopped,
    /// The enrolled voice passes.
    Passing,
    Suppressed,
}

impl Light {
    pub open spec fn text(self) -> Seq<char> {
        match self {
            Light::Stopped => "○ 停止"@,
            Light::Passing => "● 本人音声"@,
            Light::Suppressed => "○ 抑制中"@,
        }
    }

    pub fn label(&self) -> (r: &'static str)
        ensures
            r@ == self.text(),
    {
        match self {
            Light::Stopped => "○ 停止",
            Light::Passing => "● 本人音声",
            Light::Suppressed => "○ 抑制中",
        }
    }

    pub fn colour(&self) -> (r: Colour)
        ensures
            r == (match *self {
                Light::Stopped => Colour { red: 96, green: 96, blue: 96 },
                Light::Passing => Colour { red: 80, green: 200, blue: 120 },
                Light::Suppressed => Colour { red: 160, green: 80, blue: 80 },
            }),
    {
        match self {
            Light::Stopped => Colour { red: 96, green: 96, blue: 96 },
            Light::Passing => Colour { red: 80, green: 200, blue: 120 },
            Light::Suppressed => Colour { red: 160, green: 80, blue: 80 },
        }
    }
}

/// What is said about the last score.
#[derive(Debug)]
pub enum ScoreLine {
    /// Nothing is running.
    Hidden,
    /// There is no score yet.
    Measuring,
    Score { passing: bool, text: String },
}

/// The word for what a score comes to.
pub open spec fn verdict_word(passing: bool) -> Seq<char> {
    if passing {
        "通過"@
    } else {
        "抑制"@
    }
}

fn word_for(passing: bool) -> (r: &'static str)
    ensures
        r@ == verdict_word(passing),
{
    if passing {
        "通過"
    } else {
        "抑制"
    }
}

/// Where the profile came from, in the words for the user.
pub open spec fn origin_text(origin: EnrollmentOrigin) -> Seq<char> {
    match origin {
        EnrollmentOrigin::Nowhere => "本人の声"@,
        EnrollmentOrigin::Mic { secs } => "本人の声（"@ + text::decimal_text(secs as nat)
            + "秒）"@,
        EnrollmentOrigin::AutoLoaded(_) => "本人の声（保存済み）"@,
    }
}

/// The word for a grade.
pub open spec fn grade_text(grade: Grade) -> Seq<char> {
    match grade {
        Grade::Good => "良好"@,
        Grade::Usable => "使用可能"@,
        Grade::RecordAgain => "要再登録"@,
    }
}

/// The line about the quality of a profile; `n` writes its consistency.
pub open spec fn quality_text(quality: Quality, n: Seq<char>) -> Seq<char> {
    "登録品質: "@ + grade_text(quality.grade) + "（声紋一貫度 "@ + n + "）"@
}

/// The line about the quality of a profile. `number` writes a number with the
/// given decimal places.
pub fn describe_quality<N>(quality: Quality, number: &N) -> (r: String) where
    N: Fn(Binary32, u32) -> String,

    requires
        forall|x: Binary32, places: u32| number.requires((x, places)),
    ensures
        exists|n: Seq<char>| #[trigger]
            recording::written(number, quality.consistency, 2, n) && r@ == quality_text(quality, n),
{
    let n: String = number(quality.consistency, 2);
    proof {
        assert(number.ensures((quality.consistency, 2u32), n));
        assert(recording::written(number, quality.consistency, 2, n@));
    }
    let grade: &str = match quality.grade {
        Grade::Good => "良好",
        Grade::Usable => "使用可能",
        Grade::RecordAgain => "要再登録",
    };
    let head: String = text::enclosed("登録品質: ", grade, "（声紋一貫度 ");
    text::enclosed(head.as_str(), n.as_str(), "）")
}

/// The colour of that line: a warning where the voice should be recorded again.
pub fn quality_colour(quality: Quality) -> (r: Colour)
    ensures
        r == (if quality.grade == Grade::RecordAgain {
            Colour { red: 220, green: 130, blue: 70 }
        } else {
            Colour { red: 80, green: 200, blue: 120 }
        }),
{
    if quality.grade == Grade::RecordAgain {
        Colour { red: 220, green: 130, blue: 70 }
    } else {
        Colour { red: 80, green: 200, blue: 120 }
    }
}

impl AppState {
    /// What the top of the window shows.
    pub open spec fn top(self) -> Section {
        if self.recording {
            Section::Progress
        } else if self.pool is Some {
            Section::Profile
        } else {
            Section::FirstRun
        }
    }

    /// What the top of the window shows.
    pub fn section(&self) -> (r: Section)
        ensures
            r == self.top(),
    {
        if self.recording {
            Section::Progress
        } else if self.pool.is_some() {
            Section::Profile
        } else {
            Section::FirstRun
        }
    }

    /// Whether a session or a recording holds the devices.
    pub fn is_busy(&self) -> (r: bool)
        ensures
            r == (self.running || self.recording),
    {
        self.running || self.recording
    }

    /// Whether a recording may begin.
    pub fn may_record(&self) -> (r: bool)
        ensures
            r == (!self.recording && !self.running),
    {
        !self.recording && !self.running
    }

    /// After how many milliseconds the window is painted again by itself.
    pub fn repaint_after(&self) -> (r: Option<u64>)
        ensures
            r == (if self.running || self.recording {
                Some(REPAINT_MS)
            } else {
                None
            }),
    {
        if self.running || self.recording {
            Some(REPAINT_MS)
        } else {
            None
        }
    }

    /// Label of the profile: where it came from.
    pub fn profile_label(&self) -> (r: String)
        ensures
            r@ == "● 声紋: "@ + origin_text(self.origin),
    {
        match &self.origin {
            EnrollmentOrigin::Nowhere => text::joined("● 声紋: ", "本人の声"),
            EnrollmentOrigin::Mic { secs } => {
                let n: String = text::decimal(*secs as u64);
                let origin: String = text::enclosed("本人の声（", n.as_str(), "秒）");
                text::joined("● 声紋: ", origin.as_str())
            },
            EnrollmentOrigin::AutoLoaded(_) => text::joined(
                "● 声紋: ",
                "本人の声（保存済み）",
            ),
        }
    }

    /// How many anchors the profile has.
    pub fn anchors_label(&self) -> (r: String)
        ensures
            r@ == "· 特徴点 "@ + text::decimal_text(self.pool_anchors as nat) + "個"@,
    {
        let n: String = text::decimal(self.pool_anchors as u64);
        text::enclosed("· 特徴点 ", n.as_str(), "個")
    }

    /// Whether the pitch of the profile is shown: where it was measured.
    pub fn shows_pitch(&self) -> (r: bool)
        ensures
            r == (Binary32 { bits: 0 }).lt(self.pool_f0_mu),
    {
        (Binary32 { bits: 0 }).less(self.pool_f0_mu)
    }

    /// The pitch of the profile. `number` writes a number with the given
    /// decimal places.
    pub fn pitch_label<N>(&self, number: &N) -> (r: String) where
        N: Fn(Binary32, u32) -> String,

        requires
            forall|x: Binary32, places: u32| number.requires((x, places)),
        ensures
            exists|a: Seq<char>, b: Seq<char>|
                #[trigger] recording::written(number, self.pool_f0_mu, 0, a) && #[trigger]
                recording::written(number, self.pool_f0_sigma, 0, b) && r@ == "· F0 μ="@ + a
                    + " Hz σ="@ + b + " Hz"@,
    {
        let a: String = number(self.pool_f0_mu, 0);
        let b: String = number(self.pool_f0_sigma, 0);
        proof {
            assert(number.ensures((self.pool_f0_mu, 0u32), a));
            assert(number.ensures((self.pool_f0_sigma, 0u32), b));
            assert(recording::written(number, self.pool_f0_mu, 0, a@));
            assert(recording::written(number, self.pool_f0_sigma, 0, b@));
        }
        let head: String = text::enclosed("· F0 μ=", a.as_str(), " Hz σ=");
        text::enclosed(head.as_str(), b.as_str(), " Hz")
    }

    /// What the light shows; `live` is what the session says of its gate.
    pub fn light(&self, live: bool) -> (r: Light)
        ensures
            r == (if !self.running {
                Light::Stopped
            } else if live {
                Light::Passing
            } else {
                Light::Suppressed
            }),
    {
        if !self.running {
            Light::Stopped
        } else if live {
            Light::Passing
        } else {
            Light::Suppressed
        }
    }

    /// What is said about the last score of the separator, which shows one
    /// only once there is a positive one.
    pub fn separator_score<N>(&self, number: &N) -> (r: ScoreLine) where
        N: Fn(Binary32, u32) -> String,

        requires
            forall|x: Binary32, places: u32| number.requires((x, places)),
        ensures
            ({
                let score = self.separator_tuning.last();
                if self.running && (Binary32 { bits: 0 }).lt(score) {
                    &&& r matches ScoreLine::Score { passing, text }
                    &&& passing == self.separator_tuning.limit().le(score)
                    &&& exists|n: Seq<char>| #[trigger]
                        recording::written(number, score, 2, n) && text@
                            == "直近1秒の本人スコア: "@ + n + "（"@ + verdict_word(passing)
                            + "）"@
                } else {
                    r is Hidden
                }
            }),
    {
        let score: Binary32 = self.separator_tuning.last_best_score();
        if self.running && (Binary32 { bits: 0 }).less(score) {
            let passing: bool = self.separator_tuning.threshold().at_most(score);
            let n: String = number(score, 2);
            proof {
                assert(number.ensures((score, 2u32), n));
                assert(recording::written(number, score, 2, n@));
            }
            let head: String = text::enclosed(
                "直近1秒の本人スコア: ",
                n.as_str(),
                "（",
            );
            let line: String = text::enclosed(head.as_str(), word_for(passing), "）");
            ScoreLine::Score { passing, text: line }
        } else {
            ScoreLine::Hidden
        }
    }

    /// What is said about the last score of the speaker gate. A score of
    /// exactly zero means that there is none yet.
    pub fn gate_score<N>(&self, number: &N) -> (r: ScoreLine) where
        N: Fn(Binary32, u32) -> String,

        requires
            forall|x: Binary32, places: u32| number.requires((x, places)),
        ensures
            ({
                let score = self.gate_tuning@.last_score;
                let wanted = self.gate_tuning@.effective_threshold;
                if !self.running {
                    r is Hidden
                } else if is_zero(score) {
                    r is Measuring
                } else {
                    &&& r matches ScoreLine::Score { passing, text }
                    &&& passing == wanted.le(score)
                    &&& exists|a: Seq<char>, b: Seq<char>| #[trigger]
                        recording::written(number, score, 2, a) && #[trigger] recording::written(
                            number,
                            wanted,
                            2,
                            b,
                        ) && text@ == "現在の本人スコア: "@ + a + " / しきい値 "@ + b
                            + "（"@ + verdict_word(passing) + "）"@
                }
            }),
    {
        if !self.running {
            return ScoreLine::Hidden;
        }
        let score: Binary32 = self.gate_tuning.last_score();
        let wanted: Binary32 = self.gate_tuning.effective_threshold();
        if score.at_most(Binary32 { bits: 0 }) && (Binary32 { bits: 0 }).at_most(score) {
            return ScoreLine::Measuring;
        }
        let passing: bool = wanted.at_most(score);
        let a: String = number(score, 2);
        let b: String = number(wanted, 2);
        proof {
            assert(number.ensures((score, 2u32), a));
            assert(number.ensures((wanted, 2u32), b));
            assert(recording::written(number, score, 2, a@));
            assert(recording::written(number, wanted, 2, b@));
        }
        let head: String = text::enclosed(
            "現在の本人スコア: ",
            a.as_str(),
            " / しきい値 ",
        );
        let middle: String = text::enclosed(head.as_str(), b.as_str(), "（");
        let line: String = text::enclosed(middle.as_str(), word_for(passing), "）");
        ScoreLine::Score { passing, text: line }
    }
}

/// A number that equals zero, whatever its sign.
pub open spec fn is_zero(x: Binary32) -> bool {
    x.le(Binary32 { bits: 0 }) && (Binary32 { bits: 0 }).le(x)
}

/// The ready-made settings of the speaker gate.
#[derive(Debug, Clone, Copy, PartialEq, Eq, Structural)]
pub enum Preset {
    /// Keeps the own voice from breaking off.
    Smooth,
    Standard,
    /// Keeps other voices out.
    Strict,
}

/// Threshold, hangover and release of a preset.
pub fn preset_controls(preset: Preset) -> (r: (Binary32, Binary32, Binary32))
    ensures
        r == (match preset {
            Preset::Smooth => (
                Binary32 { bits: 0x3eb8_51ec },
                Binary32 { bits: 0x442f_0000 },
                Binary32 { bits: 0x4334_0000 },
            ),
            Preset::Standard => (
                Binary32 { bits: DEFAULT_GATE_THRESHOLD },
                Binary32 { bits: DEFAULT_GATE_HANGOVER_MS },
                Binary32 { bits: DEFAULT_GATE_RELEASE_MS },
            ),
            Preset::Strict => (
                Binary32 { bits: 0x3f14_7ae1 },
                Binary32 { bits: 0x4396_0000 },
                Binary32 { bits: 0x42a0_0000 },
            ),
        }),
{
    match preset {
        Preset::Smooth => (
            Binary32 { bits: 0x3eb8_51ec },
            Binary32 { bits: 0x442f_0000 },
            Binary32 { bits: 0x4334_0000 },
        ),
        Preset::Standard => (
            Binary32 { bits: DEFAULT_GATE_THRESHOLD },
            Binary32 { bits: DEFAULT_GATE_HANGOVER_MS },
            Binary32 { bits: DEFAULT_GATE_RELEASE_MS },
        ),
        Preset::Strict => (
            Binary32 { bits: 0x3f14_7ae1 },
            Binary32 { bits: 0x4396_0000 },
            Binary32 { bits: 0x42a0_0000 },
        ),
    }
}

/// The line about noise suppression.
pub fn suppressor_label(available: bool) -> (r: &'static str)
    ensures
        r@ == (if available {
            "● ノイズ除去"@
        } else {
            "○ ノイズ除去モデル未設定"@
        }),
{
    if available {
        "● ノイズ除去"
    } else {
        "○ ノイズ除去モデル未設定"
    }
}

/// The line about what extracts the voice: the separator goes first.
pub fn extractor_label(separator: bool, extractor: bool) -> (r: &'static str)
    ensures
        r@ == (if separator {
            "● 強力2話者分離（声紋選択）"@
        } else if extractor {
            "● 標準の本人音声抽出"@
        } else {
            "○ 本人音声の抽出モデル未設定"@
        }),
{
    if separator {
        "● 強力2話者分離（声紋選択）"
    } else if extractor {
        "● 標準の本人音声抽出"
    } else {
        "○ 本人音声の抽出モデル未設定"
    }
}

/// A click in the tray menu.
#[derive(Debug, Clone, Copy, PartialEq, Eq, Structural)]
pub enum TrayCommand {
    Show,
    Toggle,
    Quit,
}

/// What a click in the tray menu does.
#[derive(Debug, Clone, Copy, PartialEq, Eq, Structural)]
pub enum TrayAction {
    ShowWindow,
    Start,
    Stop,
    StopAndClose,
}

/// What a click in the tray menu does, while a session runs or not.
pub fn tray_action(command: TrayCommand, running: bool) -> (r: TrayAction)
    ensures
        r == (match command {
            TrayCommand::Show => TrayAction::ShowWindow,
            TrayCommand::Toggle => if running {
                TrayAction::Stop
            } else {
                TrayAction::Start
            },
            TrayCommand::Quit => TrayAction::StopAndClose,
        }),
{
    match command {
        TrayCommand::Show => TrayAction::ShowWindow,
        TrayCommand::Toggle => if running {
            TrayAction::Stop
        } else {
            TrayAction::Start
        },
        TrayCommand::Quit => TrayAction::StopAndClose,
    }
}

/// Whether a click on the close button only hides the window. Without a tray
/// it quits: nobody is trapped in an application without a window.
pub fn hides_on_close(close_requested: bool, has_tray: bool) -> (r: bool)
    ensures
        r == (close_requested && has_tray),
{
    close_requested && has_tray
}

/// What a device selection shows.
pub fn selection_label(selected: &Option<String>) -> (r: String)
    ensures
        r@ == (match *selected {
            Some(name) => name@,
            None => "(既定)"@,
        }),
{
    match selected {
        Some(name) => name.clone(),
        None => String::from_str("(既定)"),
    }
}

/// How far a meter is lit before it is held within its range.
spec fn reach(db: Binary32) -> Binary32 {
    db.sum(Binary32 { bits: METER_SPAN }).quotient(Binary32 { bits: METER_SPAN })
}

proof fn lemma_reach(a: Binary32, b: Binary32)
    requires
        a.finite() && b.finite(),
        a.units() <= b.units(),
    ensures
        !reach(a).nan(),
        reach(a).le(reach(b)),
        a.units() + (Binary32 { bits: 0x4270_0000 }).units() <= 0 ==> reach(a).le(
            Binary32 { bits: 0 },
        ),
        0 <= a.units() ==> (Binary32 { bits: 0x3f80_0000 }).le(reach(a)),
{
    let f = crate::binary32::format();
    crate::binary32::lemma_format();
    crate::binary32::lemma_one();
    reveal(Binary32::le);
    reveal(Binary32::sum);
    reveal(Binary32::quotient);
    let span = Binary32 { bits: 0x4270_0000 };
    let w = span.parts();
    let d = w.magnitude(f);
    let one = Binary32 { bits: 0x3f80_0000 };
    let u = vstd::arithmetic::power2::pow2(149);
    vstd::arithmetic::power2::lemma_pow2_pos(149);
    crate::binary::lemma_order(f, w.pattern, 0);
    crate::binary::lemma_order(f, 0, 0);
    let x = crate::binary::sum(f, a.parts(), w);
    let y = crate::binary::sum(f, b.parts(), w);
    lemma_sum_parts(f, a.parts(), w);
    lemma_sum_parts(f, b.parts(), w);
    assert(Binary32::of(x).parts() == x);
    assert(Binary32::of(y).parts() == y);
    let p = crate::binary::quotient(f, x, w);
    let q = crate::binary::quotient(f, y, w);
    crate::binary::lemma_rounded(f, x.negative, x.magnitude(f) * u, d);
    crate::binary::lemma_rounded(f, y.negative, y.magnitude(f) * u, d);
    assert(Binary32::of(p).parts() == p);
    assert(Binary32::of(q).parts() == q);
    crate::binary::lemma_order(f, x.pattern, y.pattern);
    crate::binary::lemma_order(f, y.pattern, x.pattern);
    crate::binary::lemma_order(f, p.pattern, q.pattern);
    crate::binary::lemma_order(f, q.pattern, p.pattern);
    crate::binary::lemma_sum_bound(f, a.parts(), w, w.pattern);
    crate::binary::lemma_order(f, p.pattern, one.parts().pattern);
    crate::binary::lemma_order(f, one.parts().pattern, p.pattern);
    crate::rounding::lemma_nearest_bound(
        f.h(),
        f.inf(),
        x.magnitude(f) * u,
        d,
        one.parts().pattern as nat,
    );
    if 0 <= a.units() {
        assert(x.magnitude(f) * u >= u * d) by (nonlinear_arith)
            requires
                x.magnitude(f) >= d,
                u > 0,
        ;
    }
    let s = a.units() + d;
    let t = b.units() + d;
    if s >= 0 {
        crate::rounding::lemma_nearest_monotone(f.h(), f.inf(), s as nat, t as nat, 1);
    } else if t <= 0 {
        crate::rounding::lemma_nearest_monotone(f.h(), f.inf(), (-t) as nat, (-s) as nat, 1);
    }
    if s == 0 {
        assert(x.magnitude(f) == 0);
        assert(0 * u == 0);
        crate::binary::lemma_zero(f, d);
    }
    if x.magnitude(f) <= y.magnitude(f) {
        assert(x.magnitude(f) * u <= y.magnitude(f) * u) by (nonlinear_arith)
            requires
                x.magnitude(f) <= y.magnitude(f),
                u > 0,
        ;
        crate::rounding::lemma_nearest_monotone(
            f.h(),
            f.inf(),
            x.magnitude(f) * u,
            y.magnitude(f) * u,
            d,
        );
    } else {
        assert(y.magnitude(f) * u <= x.magnitude(f) * u) by (nonlinear_arith)
            requires
                y.magnitude(f) <= x.magnitude(f),
                u > 0,
        ;
        crate::rounding::lemma_nearest_monotone(
            f.h(),
            f.inf(),
            y.magnitude(f) * u,
            x.magnitude(f) * u,
            d,
        );
    }
}

/// The sum of two finite numbers is a number, rounded by its size.
proof fn lemma_sum_parts(f: crate::binary::Format, a: crate::binary::Parts, b: crate::binary::Parts)
    requires
        f.valid(),
        a.finite(f),
        b.finite(f),
    ensures
        ({
            let s = a.units(f) + b.units(f);
            let r = crate::binary::sum(f, a, b);
            &&& r.pattern <= f.top
            &&& s > 0 ==> !r.negative && r.pattern == crate::rounding::nearest(
                f.h(),
                f.inf(),
                s as nat,
                1,
            )
            &&& s < 0 ==> r.negative && r.pattern == crate::rounding::nearest(
                f.h(),
                f.inf(),
                (-s) as nat,
                1,
            )
            &&& s == 0 ==> r.pattern == 0
        }),
{
    let s = a.units(f) + b.units(f);
    if s > 0 {
        crate::binary::lemma_rounded(f, false, s as nat, 1);
    } else if s < 0 {
        crate::binary::lemma_rounded(f, true, (-s) as nat, 1);
    }
}

/// A meter rises with the level: a louder one never lights less, 0 dBFS and
/// more light all of it, and -60 dBFS and less nothing.
pub proof fn law_meters_rise_with_the_level(rms: Binary32, a: Binary32, b: Binary32)
    requires
        !rms.le(Binary32 { bits: METER_FLOOR }),
        a.finite() && b.finite(),
        a.units() <= b.units(),
    ensures
        lit(rms, a).le(lit(rms, b)),
        a.units() + (Binary32 { bits: 0x4270_0000 }).units() <= 0 ==> lit(rms, a).units() == 0,
        0 <= a.units() ==> lit(rms, a).units() == (Binary32 { bits: 0x3f80_0000 }).units(),
{
    lemma_meter_ends();
    lemma_reach(a, b);
    lemma_reach(b, b);
    let low = Binary32 { bits: 0 };
    let high = Binary32 { bits: 0x3f80_0000 };
    let p = reach(a);
    let q = reach(b);
    crate::binary32::lemma_total(p, q, high);
    crate::binary32::lemma_total(p, low, high);
    crate::binary32::lemma_total(q, low, high);
    crate::binary32::lemma_total(high, p, q);
    crate::binary32::lemma_total(high, q, p);
    crate::binary32::lemma_total(low, p, q);
    crate::binary32::lemma_total(low, q, high);
    crate::binary32::lemma_total(low, high, high);
    crate::binary32::lemma_total(high, high, high);
    reveal(Binary32::le);
    reveal(Binary32::lt);
    crate::binary32::lemma_format();
    crate::binary32::lemma_one();
    crate::binary::lemma_order(crate::binary32::format(), 0, 0);
}

} // verus!
