//! Reading the persisted controls.
//!
//! The speaker gate settings are one line, `v2 <threshold> <hangover_ms>
//! <release_ms>`. A file that is damaged or of an unknown version falls back as
//! a whole: no single value of it is used, and none takes another's place.
//! Thresholds from before the current scoring scale are accepted only at or
//! above today's safe default.

use crate::binary32::Binary32;
use crate::gating::GateConfig;
use crate::separation::MIN_TARGET_SCORE;
use crate::text;
use vstd::prelude::*;
use vstd::string::StrSliceExecFns;
use vstd::string::StringExecFns;

verus! {

/// Bits of `0.45`.
pub const DEFAULT_GATE_THRESHOLD: u32 = 0x3ee6_6666;

/// Bits of `500.0`.
pub const DEFAULT_GATE_HANGOVER_MS: u32 = 0x43fa_0000;

/// Bits of `120.0`.
pub const DEFAULT_GATE_RELEASE_MS: u32 = 0x42f0_0000;

/// `x` lies between the numbers with the given bits, ends included.
pub open spec fn between(low: u32, x: Binary32, high: u32) -> bool {
    (Binary32 { bits: low }).le(x) && x.le(Binary32 { bits: high })
}

fn is_between(low: u32, x: Binary32, high: u32) -> (r: bool)
    ensures
        r == between(low, x, high),
{
    Binary32 { bits: low }.at_most(x) && x.at_most(Binary32 { bits: high })
}

/// Thresholds that a settings file may hold: 0.15 to 0.85.
pub open spec fn threshold_allowed(x: Binary32) -> bool {
    between(0x3e19_999a, x, 0x3f59_999a)
}

/// Hangover times that a settings file may hold: 100 to 1200 ms.
pub open spec fn hangover_allowed(x: Binary32) -> bool {
    between(0x42c8_0000, x, 0x4496_0000)
}

/// Release times that a settings file may hold: 30 to 400 ms.
pub open spec fn release_allowed(x: Binary32) -> bool {
    between(0x41f0_0000, x, 0x43c8_0000)
}

/// The speaker gate in use when nothing was persisted; what has no control keeps its
/// value.
pub open spec fn default_gate(base: GateConfig) -> GateConfig {
    GateConfig {
        theta_pass: Binary32 { bits: DEFAULT_GATE_THRESHOLD },
        adaptive_theta: false,
        hangover_ms: Binary32 { bits: DEFAULT_GATE_HANGOVER_MS },
        release_ms: Binary32 { bits: DEFAULT_GATE_RELEASE_MS },
        ..base
    }
}

/// The speaker gate in use when nothing was persisted.
pub fn default_gate_config(base: GateConfig) -> (r: GateConfig)
    ensures
        r == default_gate(base),
{
    GateConfig {
        theta_pass: Binary32 { bits: DEFAULT_GATE_THRESHOLD },
        adaptive_theta: false,
        hangover_ms: Binary32 { bits: DEFAULT_GATE_HANGOVER_MS },
        release_ms: Binary32 { bits: DEFAULT_GATE_RELEASE_MS },
        ..base
    }
}

/// The first word is the current version mark.
pub open spec fn is_versioned(words: Seq<Seq<char>>) -> bool {
    words.len() > 0 && words[0] == "v2"@
}

/// A version mark that is not the current one.
pub open spec fn is_unknown_version(words: Seq<Seq<char>>) -> bool {
    words.len() > 0 && words[0].len() > 0 && words[0][0] == 'v' && !is_versioned(words)
}

/// The words that hold values.
pub open spec fn value_words(words: Seq<Seq<char>>) -> Seq<Seq<char>> {
    if is_versioned(words) {
        words.skip(1)
    } else {
        words
    }
}

/// The controls that a settings file holds, where it is whole.
pub open spec fn settings_in(words: Seq<Seq<char>>, readings: Seq<Option<Binary32>>) -> Option<
    (Binary32, Binary32, Binary32),
> {
    if is_unknown_version(words) {
        None
    } else {
        match (readings[0], readings[1], readings[2]) {
            (Some(x), Some(y), Some(z)) if readings.len() >= 3 && threshold_allowed(x)
                && hangover_allowed(y) && release_allowed(z) => Some((x, y, z)),
            _ => None,
        }
    }
}

/// A threshold brought up to today's scale.
pub open spec fn safe_threshold(x: Binary32) -> Binary32 {
    x.larger(Binary32 { bits: DEFAULT_GATE_THRESHOLD })
}

/// The speaker gate that persisted controls come to: those of the settings file where
/// it is whole, else the older threshold file's where it holds a threshold,
/// else the default.
pub open spec fn gate_from(
    base: GateConfig,
    settings: Option<(Binary32, Binary32, Binary32)>,
    versioned: bool,
    legacy: Option<Binary32>,
) -> GateConfig {
    match settings {
        Some((threshold, hangover, release)) => GateConfig {
            theta_pass: if versioned {
                threshold
            } else {
                safe_threshold(threshold)
            },
            hangover_ms: hangover,
            release_ms: release,
            ..default_gate(base)
        },
        None => match legacy {
            Some(x) if threshold_allowed(x) => GateConfig {
                theta_pass: safe_threshold(x),
                ..default_gate(base)
            },
            _ => default_gate(base),
        },
    }
}

/// `parse` may read `word` as `reading`.
pub open spec fn read_as<F: Fn(&str) -> Option<Binary32>>(
    parse: F,
    word: Seq<char>,
    reading: Option<Binary32>,
) -> bool {
    exists|w: &str| w@ == word && #[trigger] parse.ensures((w,), reading)
}

/// Every word was read.
pub open spec fn all_asked<F: Fn(&str) -> Option<Binary32>>(
    parse: F,
    words: Seq<Seq<char>>,
    readings: Seq<Option<Binary32>>,
) -> bool {
    &&& words.len() == readings.len()
    &&& forall|i: int|
        0 <= i < words.len() ==> read_as(parse, words[i], #[trigger] readings[i])
}

/// Reads the words that hold values.
fn read_values<F>(words: &Vec<String>, start: usize, parse: &F) -> (r: Vec<Option<Binary32>>) where
    F: Fn(&str) -> Option<Binary32>,

    requires
        start <= words@.len(),
        forall|w: &str| parse.requires((w,)),
    ensures
        all_asked(*parse, text::texts(words@).skip(start as int), r@),
{
    let ghost all = text::texts(words@).skip(start as int);
    let mut r: Vec<Option<Binary32>> = Vec::new();
    let mut i: usize = start;
    while i < words.len()
        invariant
            start <= i <= words@.len(),
            all == text::texts(words@).skip(start as int),
            r.len() == i - start,
            forall|w: &str| parse.requires((w,)),
            forall|k: int|
                0 <= k < i - start ==> read_as(*parse, all[k], #[trigger] r@[k]),
        decreases words@.len() - i,
    {
        let w: &str = words[i].as_str();
        let reading: Option<Binary32> = parse(w);
        assert(parse.ensures((w,), reading));
        assert(read_as(*parse, all[i - start], reading));
        r.push(reading);
        i = i + 1;
    }
    r
}

/// The controls that a settings file holds, where it is whole, and whether it
/// is of the current version.
fn read_settings<F>(contents: &str, parse: &F) -> (r: (
    Option<(Binary32, Binary32, Binary32)>,
    bool,
    Ghost<Seq<Option<Binary32>>>,
)) where F: Fn(&str) -> Option<Binary32>
    requires
        forall|w: &str| parse.requires((w,)),
    ensures
        all_asked(*parse, value_words(text::words(contents@)), r.2@),
        r.0 == settings_in(text::words(contents@), r.2@),
        r.1 == is_versioned(text::words(contents@)),
{
    let words: Vec<String> = text::split_words(contents);
    let ghost w = text::words(contents@);
    proof {
        reveal_strlit("v2");
    }
    let mark: String = String::from_str("v2");
    let versioned: bool = words.len() > 0 && words[0] == mark;
    assert(words@.len() > 0 ==> text::texts(words@)[0] == words@[0]@);
    assert(versioned == is_versioned(w));
    let unknown: bool = words.len() > 0 && words[0].as_str().unicode_len() > 0
        && words[0].as_str().get_char(0) == 'v' && !versioned;
    assert(unknown == is_unknown_version(w));
    let start: usize = if versioned {
        1
    } else {
        0
    };
    let readings: Vec<Option<Binary32>> = read_values(&words, start, parse);
    assert(w.skip(0) =~= w);
    let ghost asked = readings@;
    if unknown {
        return (None, versioned, Ghost(asked));
    }
    if readings.len() < 3 {
        return (None, versioned, Ghost(asked));
    }
    match (readings[0], readings[1], readings[2]) {
        (Some(threshold), Some(hangover), Some(release)) => {
            if is_between(0x3e19_999a, threshold, 0x3f59_999a) && is_between(
                0x42c8_0000,
                hangover,
                0x4496_0000,
            ) && is_between(0x41f0_0000, release, 0x43c8_0000) {
                (Some((threshold, hangover, release)), versioned, Ghost(asked))
            } else {
                (None, versioned, Ghost(asked))
            }
        },
        _ => (None, versioned, Ghost(asked)),
    }
}

/// What an optional file of one number was read as.
pub open spec fn file_read_as<F: Fn(&str) -> Option<Binary32>>(
    parse: F,
    contents: Option<&str>,
    reading: Option<Binary32>,
) -> bool {
    match contents {
        Some(c) => read_as(parse, text::trimmed(c@), reading),
        None => reading is None,
    }
}

/// Reads an optional file of one number.
fn read_number<F>(contents: Option<&str>, parse: &F) -> (r: Option<Binary32>) where
    F: Fn(&str) -> Option<Binary32>,

    requires
        forall|w: &str| parse.requires((w,)),
    ensures
        file_read_as(*parse, contents, r),
{
    match contents {
        Some(c) => {
            let bare: String = text::trim(c);
            let w: &str = bare.as_str();
            let reading: Option<Binary32> = parse(w);
            assert(parse.ensures((w,), reading));
            reading
        },
        None => None,
    }
}

/// The files were read as `readings` and `old_reading`, which come to `gate`.
/// The older file is looked at only where the settings file is not whole.
pub open spec fn gate_loaded<F: Fn(&str) -> Option<Binary32>>(
    parse: F,
    base: GateConfig,
    settings: Option<&str>,
    legacy: Option<&str>,
    readings: Seq<Option<Binary32>>,
    old_reading: Option<Binary32>,
    gate: GateConfig,
) -> bool {
    let words = match settings {
        Some(c) => text::words(c@),
        None => Seq::empty(),
    };
    let found = match settings {
        Some(c) => settings_in(words, readings),
        None => None,
    };
    &&& settings is Some ==> all_asked(parse, value_words(words), readings)
    &&& found is None ==> file_read_as(parse, legacy, old_reading)
    &&& gate == gate_from(base, found, is_versioned(words), old_reading)
}

/// The persisted gate, from the contents of the settings file and of the older
/// threshold file, as far as they could be read. `parse` reads a number.
pub fn load_gate_config<F>(
    base: GateConfig,
    settings: Option<&str>,
    legacy: Option<&str>,
    parse: &F,
) -> (r: GateConfig) where F: Fn(&str) -> Option<Binary32>
    requires
        forall|w: &str| parse.requires((w,)),
    ensures
        exists|
            readings: Seq<Option<Binary32>>,
            old_reading: Option<Binary32>,
            gate: GateConfig,
        | #[trigger]
            gate_loaded(*parse, base, settings, legacy, readings, old_reading, gate) && r == gate,
{
    let ghost mut readings: Seq<Option<Binary32>> = Seq::empty();
    let ghost old_reading: Option<Binary32> = None;
    let config: GateConfig = default_gate_config(base);
    match settings {
        Some(c) => {
            let (found, versioned, Ghost(asked)) = read_settings(c, parse);
            proof {
                readings = asked;
            }
            match found {
                Some((threshold, hangover_ms, release_ms)) => {
                    let theta_pass: Binary32 = if versioned {
                        threshold
                    } else {
                        threshold.maximum(Binary32 { bits: DEFAULT_GATE_THRESHOLD })
                    };
                    let gate: GateConfig = GateConfig {
                        theta_pass,
                        hangover_ms,
                        release_ms,
                        ..config
                    };
                    assert(gate_loaded(
                        *parse,
                        base,
                        settings,
                        legacy,
                        readings,
                        old_reading,
                        gate,
                    ));
                    return gate;
                },
                None => {},
            }
        },
        None => {},
    }
    let reading: Option<Binary32> = read_number(legacy, parse);
    let gate: GateConfig = match reading {
        Some(x) => if is_between(0x3e19_999a, x, 0x3f59_999a) {
            GateConfig {
                theta_pass: x.maximum(Binary32 { bits: DEFAULT_GATE_THRESHOLD }),
                ..config
            }
        } else {
            config
        },
        None => config,
    };
    assert(gate_loaded(*parse, base, settings, legacy, readings, reading, gate));
    gate
}

/// Separator thresholds that may be persisted: 0.05 to 0.95.
pub open spec fn separator_threshold_allowed(x: Binary32) -> bool {
    between(0x3d4c_cccd, x, 0x3f73_3333)
}

/// The separator threshold that a reading comes to.
pub open spec fn separator_threshold_from(reading: Option<Binary32>) -> Binary32 {
    match reading {
        Some(x) if separator_threshold_allowed(x) => x,
        _ => Binary32 { bits: MIN_TARGET_SCORE },
    }
}

/// The persisted separator threshold, falling back to the default when the
/// file is missing, unreadable, or out of range.
pub fn load_separator_threshold<F>(contents: Option<&str>, parse: &F) -> (r: Binary32) where
    F: Fn(&str) -> Option<Binary32>,

    requires
        forall|w: &str| parse.requires((w,)),
    ensures
        exists|reading: Option<Binary32>| #[trigger]
            file_read_as(*parse, contents, reading) && r == separator_threshold_from(reading),
{
    let reading: Option<Binary32> = read_number(contents, parse);
    match reading {
        Some(x) => if is_between(0x3d4c_cccd, x, 0x3f73_3333) {
            x
        } else {
            Binary32 { bits: MIN_TARGET_SCORE }
        },
        None => Binary32 { bits: MIN_TARGET_SCORE },
    }
}

/// The settings file for these texts of the controls.
pub open spec fn settings_text(threshold: Seq<char>, hangover: Seq<char>, release: Seq<char>) -> Seq<
    char,
> {
    "v2 "@ + threshold + " "@ + hangover + " "@ + release + "\n"@
}

/// The settings file for these texts of the controls.
pub fn write_settings(threshold: &str, hangover: &str, release: &str) -> (r: String)
    ensures
        r@ == settings_text(threshold@, hangover@, release@),
{
    let mut r: String = text::enclosed("v2 ", threshold, " ");
    r.append(hangover);
    r.append(" ");
    r.append(release);
    r.append("\n");
    r
}

/// What was saved comes back on the next launch: a settings file holds the
/// controls whose texts were written to it, as far as those are numbers that a
/// settings file may hold.
pub proof fn law_saved_settings_come_back(
    base: GateConfig,
    threshold: Seq<char>,
    hangover: Seq<char>,
    release: Seq<char>,
    x: Binary32,
    y: Binary32,
    z: Binary32,
    legacy: Option<Binary32>,
)
    requires
        text::is_word(threshold) && text::is_word(hangover) && text::is_word(release),
        threshold_allowed(x) && hangover_allowed(y) && release_allowed(z),
    ensures
        ({
            let words = text::words(settings_text(threshold, hangover, release));
            let readings = seq![Some(x), Some(y), Some(z)];
            let gate = gate_from(base, settings_in(words, readings), is_versioned(words), legacy);
            &&& value_words(words) == seq![threshold, hangover, release]
            &&& gate.theta_pass == x
            &&& gate.hangover_ms == y
            &&& gate.release_ms == z
        }),
{
    reveal_strlit("v2 ");
    reveal_strlit("v2");
    reveal_strlit(" ");
    reveal_strlit("\n");
    let s = settings_text(threshold, hangover, release);
    let end = Seq::<char>::empty();
    let r3 = release + seq!['\n'] + end;
    let r2 = hangover + seq![' '] + r3;
    let r1 = threshold + seq![' '] + r2;
    assert(s =~= "v2"@ + seq![' '] + r1);
    text::law_first_word("v2"@, ' ', r1);
    text::law_first_word(threshold, ' ', r2);
    text::law_first_word(hangover, ' ', r3);
    text::law_first_word(release, '\n', end);
    let words = text::words(s);
    assert(text::words(end) =~= Seq::<Seq<char>>::empty());
    assert(words =~= seq!["v2"@, threshold, hangover, release]);
    assert(words.skip(1) =~= seq![threshold, hangover, release]);
}

/// The separator threshold that was saved comes back on the next launch, as
/// far as it is a number that may be persisted.
pub proof fn law_saved_separator_threshold_comes_back(threshold: Seq<char>, x: Binary32)
    requires
        text::is_word(threshold),
        separator_threshold_allowed(x),
    ensures
        text::trimmed(threshold + "\n"@) == threshold,
        separator_threshold_from(Some(x)) == x,
{
    reveal_strlit("\n");
    assert("\n"@ =~= seq!['\n']);
    text::law_trimmed_word(threshold, '\n');
}

/// A threshold from before the current scale is never loosened below today's
/// safe default, and a stricter one stays as it is.
pub proof fn law_old_thresholds_never_loosen(
    base: GateConfig,
    settings: Option<(Binary32, Binary32, Binary32)>,
    legacy: Option<Binary32>,
)
    requires
        settings matches Some(v) ==> threshold_allowed(v.0),
    ensures
        ({
            let gate = gate_from(base, settings, false, legacy);
            let floor = Binary32 { bits: DEFAULT_GATE_THRESHOLD };
            let old = match settings {
                Some(v) => Some(v.0),
                None => legacy,
            };
            &&& floor.le(gate.theta_pass)
            &&& old matches Some(x) ==> (threshold_allowed(x) && floor.lt(x) ==> gate.theta_pass
                == x)
            &&& !gate.adaptive_theta
        }),
{
    let floor = Binary32 { bits: DEFAULT_GATE_THRESHOLD };
    assert(!floor.nan()) by {
        crate::binary32::lemma_format();
        reveal(Binary32::le);
    }
    crate::binary32::lemma_total(floor, floor, floor);
    let old = match settings {
        Some(v) => Some(v.0),
        None => legacy,
    };
    if let Some(x) = old {
        if threshold_allowed(x) {
            assert(!x.nan()) by {
                reveal(Binary32::le);
            }
            crate::binary32::lemma_total(x, floor, floor);
            crate::binary32::lemma_total(floor, x, x);
        }
    }
}

/// A file of an unknown version, or one whose three values are not all there
/// and in range, has no influence at all: the speaker gate is the one that an older
/// file, or none, comes to.
pub proof fn law_damaged_settings_fall_back(
    base: GateConfig,
    words: Seq<Seq<char>>,
    readings: Seq<Option<Binary32>>,
    legacy: Option<Binary32>,
)
    requires
        is_unknown_version(words) || readings.len() < 3 || readings[0] is None || readings[1] is None
            || readings[2] is None || !threshold_allowed(readings[0]->0) || !hangover_allowed(
            readings[1]->0,
        ) || !release_allowed(readings[2]->0),
    ensures
        gate_from(base, settings_in(words, readings), is_versioned(words), legacy) == gate_from(
            base,
            None,
            false,
            legacy,
        ),
        gate_from(base, settings_in(words, readings), is_versioned(words), None) == default_gate(
            base,
        ),
{
}

/// A settings file counts exactly where it has no other version mark and holds
/// a threshold from 0.15 to 0.85, a hangover from 100 to 1200 ms and a release
/// from 30 to 400 ms, in that order; the three are then what the speaker gate
/// works with, the threshold of a file without a mark at least today's default.
/// An older file has no influence beside it, and what has no control is kept.
pub proof fn law_whole_settings_are_taken_over(
    base: GateConfig,
    words: Seq<Seq<char>>,
    readings: Seq<Option<Binary32>>,
    x: Binary32,
    y: Binary32,
    z: Binary32,
    legacy: Option<Binary32>,
)
    requires
        readings.len() >= 3,
        readings[0] == Some(x) && readings[1] == Some(y) && readings[2] == Some(z),
        words.len() > 0 && words[0].len() > 0 && words[0][0] == 'v' ==> words[0] == "v2"@,
    ensures
        ({
            let whole = {
                &&& (Binary32 { bits: 0x3e19_999a }).le(x) && x.le(Binary32 { bits: 0x3f59_999a })
                &&& (Binary32 { bits: 0x42c8_0000 }).le(y) && y.le(Binary32 { bits: 0x4496_0000 })
                &&& (Binary32 { bits: 0x41f0_0000 }).le(z) && z.le(Binary32 { bits: 0x43c8_0000 })
            };
            let gate = gate_from(base, settings_in(words, readings), is_versioned(words), legacy);
            &&& settings_in(words, readings) is Some <==> whole
            &&& whole ==> {
                &&& gate.hangover_ms == y
                &&& gate.release_ms == z
                &&& words.len() > 0 && words[0] == "v2"@ ==> gate.theta_pass == x
                &&& (Binary32 { bits: 0x3ee6_6666 }).le(x) ==> gate.theta_pass.units() == x.units()
                &&& gate == gate_from(
                    base,
                    settings_in(words, readings),
                    is_versioned(words),
                    None,
                )
            }
        }),
{
    let floor = Binary32 { bits: DEFAULT_GATE_THRESHOLD };
    if threshold_allowed(x) {
        assert(!x.nan() && !floor.nan()) by {
            crate::binary32::lemma_format();
            reveal(Binary32::le);
        }
        crate::binary32::lemma_total(x, floor, floor);
    }
}

/// Whatever was persisted, a speaker gate that was loaded is not adaptive and
/// keeps what has no control. Without a settings file that counts, its times
/// are 500 and 120 ms, and its threshold is that of an older file where that is
/// from 0.45 to 0.85, and 0.45 where there is none or it is lower.
pub proof fn law_loaded_gates_are_safe(
    base: GateConfig,
    settings: Option<(Binary32, Binary32, Binary32)>,
    versioned: bool,
    legacy: Option<Binary32>,
)
    ensures
        ({
            let gate = gate_from(base, settings, versioned, legacy);
            let floor = Binary32 { bits: 0x3ee6_6666 };
            let top = Binary32 { bits: 0x3f59_999a };
            &&& !gate.adaptive_theta
            &&& gate.use_as_norm == base.use_as_norm
            &&& gate.hangover_floor_frac == base.hangover_floor_frac
            &&& gate.attack_ms == base.attack_ms
            &&& gate.theta_f0 == base.theta_f0
            &&& gate.other_speaker_margin == base.other_speaker_margin
            &&& settings is None ==> {
                &&& gate.hangover_ms.bits == 0x43fa_0000
                &&& gate.release_ms.bits == 0x42f0_0000
                &&& legacy is None ==> gate.theta_pass == floor
                &&& legacy matches Some(x) ==> {
                    &&& floor.le(x) && x.le(top) ==> gate.theta_pass == x
                    &&& !(floor.le(x) && x.le(top)) ==> gate.theta_pass == floor
                }
            }
        }),
{
    let floor = Binary32 { bits: 0x3ee6_6666 };
    let top = Binary32 { bits: 0x3f59_999a };
    let low = Binary32 { bits: 0x3e19_999a };
    crate::binary32::lemma_format();
    assert(low.le(floor)) by {
        reveal(Binary32::le);
        crate::binary::lemma_order(
            crate::binary32::format(),
            low.parts().pattern,
            floor.parts().pattern,
        );
    }
    if let Some(x) = legacy {
        if x.nan() {
            reveal(Binary32::le);
        } else {
            crate::binary32::lemma_total(low, floor, x);
            crate::binary32::lemma_total(x, floor, floor);
        }
    }
}

/// Of a persisted separator threshold anything from 0.05 to 0.95 is taken, and
/// nothing else has any influence.
pub proof fn law_separator_thresholds_out_of_range_fall_back(x: Binary32)
    ensures
        (Binary32 { bits: 0x3d4c_cccd }).le(x) && x.le(Binary32 { bits: 0x3f73_3333 })
            ==> separator_threshold_from(Some(x)) == x,
        !((Binary32 { bits: 0x3d4c_cccd }).le(x) && x.le(Binary32 { bits: 0x3f73_3333 }))
            ==> separator_threshold_from(Some(x)) == separator_threshold_from(None),
{
}

/// A file that starts with any other version mark counts for nothing, whatever
/// else it holds.
pub proof fn law_other_versions_do_not_count(
    words: Seq<Seq<char>>,
    readings: Seq<Option<Binary32>>,
)
    requires
        words.len() > 0 && words[0].len() > 0,
        words[0][0] == 'v',
        words[0] != "v2"@,
    ensures
        settings_in(words, readings) is None,
{
}

} // verus!
