//! The files a command reads and writes, step by step. Encoding applies the
//! extensions in the order given and then compresses; decoding decompresses
//! and then removes the extensions in reverse order. Every step but the last
//! writes an intermediate file named after the command's files.
use vstd::prelude::*;
use crate::cli::commands::{Algorithm, Config, EncodeOption, Extension};
use crate::text::{concat_str, push_char};

verus! {

/// What a step does to the file it reads.
#[derive(Debug, Clone, Copy, PartialEq, Eq, Structural)]
pub enum Action {
    ApplyExtension(Extension),
    RemoveExtension(Extension),
    Encode(Algorithm),
    Decode(Algorithm),
}

/// One step of a command: `action` reads `input_file` and writes `output_file`.
#[derive(Debug)]
pub struct Step {
    pub action: Action,
    pub input_file: String,
    pub output_file: String,
}

/// The character of the decimal digit `d`.
pub open spec fn digit_char(d: nat) -> char {
    if d == 0 {
        '0'
    } else if d == 1 {
        '1'
    } else if d == 2 {
        '2'
    } else if d == 3 {
        '3'
    } else if d == 4 {
        '4'
    } else if d == 5 {
        '5'
    } else if d == 6 {
        '6'
    } else if d == 7 {
        '7'
    } else if d == 8 {
        '8'
    } else {
        '9'
    }
}

/// `n` in decimal, with no leading zeros.
pub open spec fn decimal_text(n: nat) -> Seq<char>
    decreases n,
{
    if n < 10 {
        seq![digit_char(n)]
    } else {
        decimal_text(n / 10).push(digit_char(n % 10))
    }
}

/// Name of the intermediate file `i` of an encoding into `base`.
pub open spec fn tmp_name(base: Seq<char>, i: nat) -> Seq<char> {
    base + seq!['.', 't', 'm', 'p', '-'] + decimal_text(i)
}

/// Name of the intermediate file `i` of removing extensions from `base`.
pub open spec fn dec_tmp_name(base: Seq<char>, i: nat) -> Seq<char> {
    base + seq!['.', 'd', 'e', 'c', '.', 't', 'm', 'p', '-'] + decimal_text(i)
}

/// `s` does `a`, reading `input` and writing `output`.
pub open spec fn step_is(s: Step, a: Action, input: Seq<char>, output: Seq<char>) -> bool {
    &&& s.action == a
    &&& s.input_file@ == input
    &&& s.output_file@ == output
}

/// The file read by step `i` of applying extensions to `input`, whose
/// intermediate files are named after `out`.
pub open spec fn extension_input(input: Seq<char>, out: Seq<char>, i: int) -> Seq<char> {
    if i == 0 {
        input
    } else {
        tmp_name(out, (i - 1) as nat)
    }
}

/// `steps` apply `exts` in order: step `i` applies `exts[i]` and writes
/// intermediate file `i` of `out`, which the next step reads.
pub open spec fn extension_steps_are(
    steps: Seq<Step>,
    exts: Seq<Extension>,
    input: Seq<char>,
    out: Seq<char>,
) -> bool {
    &&& steps.len() == exts.len()
    &&& forall|i: int|
        0 <= i < exts.len() ==> step_is(
            #[trigger] steps[i],
            Action::ApplyExtension(exts[i]),
            extension_input(input, out, i),
            tmp_name(out, i as nat),
        )
}

/// The file read by step `i` of removing extensions from `input`.
pub open spec fn removal_input(input: Seq<char>, i: int) -> Seq<char> {
    if i == 0 {
        input
    } else {
        dec_tmp_name(input, i as nat)
    }
}

/// The file written by step `i` of `n` of removing extensions from `input`
/// into `out`: the last step writes `out`.
pub open spec fn removal_output(input: Seq<char>, out: Seq<char>, n: int, i: int) -> Seq<char> {
    if i == n - 1 {
        out
    } else {
        dec_tmp_name(input, (i + 1) as nat)
    }
}

/// `steps` remove `exts` from `input` into `out`, the last extension first.
pub open spec fn removal_steps_are(
    steps: Seq<Step>,
    exts: Seq<Extension>,
    input: Seq<char>,
    out: Seq<char>,
) -> bool {
    let n = exts.len() as int;
    &&& steps.len() == n
    &&& forall|i: int|
        0 <= i < n ==> step_is(
            #[trigger] steps[i],
            Action::RemoveExtension(exts[n - 1 - i]),
            removal_input(input, i),
            removal_output(input, out, n, i),
        )
}

/// `steps` encode `input` into `out`: the extensions, then `alg` on the
/// result of the last one.
pub open spec fn encoding_steps_are(
    steps: Seq<Step>,
    exts: Seq<Extension>,
    alg: Algorithm,
    input: Seq<char>,
    out: Seq<char>,
) -> bool {
    let n = exts.len() as int;
    &&& steps.len() == n + 1
    &&& extension_steps_are(steps.take(n), exts, input, out)
    &&& step_is(steps[n], Action::Encode(alg), extension_input(input, out, n), out)
}

/// `steps` decode `input` into `out`: `alg` alone when there are no
/// extensions; else `alg` into intermediate file 0 of `out`, then the
/// extensions removed from that file.
pub open spec fn decoding_steps_are(
    steps: Seq<Step>,
    exts: Seq<Extension>,
    alg: Algorithm,
    input: Seq<char>,
    out: Seq<char>,
) -> bool {
    if exts.len() == 0 {
        &&& steps.len() == 1
        &&& step_is(steps[0], Action::Decode(alg), input, out)
    } else {
        &&& steps.len() == exts.len() + 1
        &&& step_is(steps[0], Action::Decode(alg), input, tmp_name(out, 0))
        &&& removal_steps_are(steps.skip(1), exts, tmp_name(out, 0), out)
    }
}

fn digit(d: usize) -> (c: char)
    requires
        d < 10,
    ensures
        c == digit_char(d as nat),
{
    if d == 0 {
        '0'
    } else if d == 1 {
        '1'
    } else if d == 2 {
        '2'
    } else if d == 3 {
        '3'
    } else if d == 4 {
        '4'
    } else if d == 5 {
        '5'
    } else if d == 6 {
        '6'
    } else if d == 7 {
        '7'
    } else if d == 8 {
        '8'
    } else {
        '9'
    }
}

/// Appends `n` in decimal to `s`.
fn push_number(s: &mut String, n: usize)
    ensures
        final(s)@ == old(s)@ + decimal_text(n as nat),
    decreases n,
{
    if n >= 10 {
        push_number(s, n / 10);
    }
    let ghost mid = s@;
    push_char(s, digit(n % 10));
    proof {
        if n >= 10 {
            assert(s@ =~= old(s)@ + decimal_text((n / 10) as nat).push(digit_char((n % 10) as nat)));
        } else {
            assert(s@ =~= old(s)@ + seq![digit_char(n as nat)]);
        }
    }
}

/// `base`, the text `tag`, and `i` in decimal.
fn numbered_name(base: &str, tag: &str, i: usize) -> (r: String)
    ensures
        r@ == base@ + tag@ + decimal_text(i as nat),
{
    let mut r = concat_str(base, tag);
    push_number(&mut r, i);
    r
}

/// Name of the intermediate file `i` of an encoding into `base`.
fn tmp_file_name(base: &str, i: usize) -> (r: String)
    ensures
        r@ == tmp_name(base@, i as nat),
{
    proof {
        reveal_strlit(".tmp-");
    }
    numbered_name(base, ".tmp-", i)
}

/// Name of the intermediate file `i` of removing extensions from `base`.
fn dec_tmp_file_name(base: &str, i: usize) -> (r: String)
    ensures
        r@ == dec_tmp_name(base@, i as nat),
{
    proof {
        reveal_strlit(".dec.tmp-");
    }
    numbered_name(base, ".dec.tmp-", i)
}

fn copy_extensions(v: &Vec<Extension>) -> (r: Vec<Extension>)
    ensures
        r@ == v@,
{
    let mut r: Vec<Extension> = Vec::new();
    let mut i: usize = 0;
    while i < v.len()
        invariant
            i <= v@.len(),
            r@ == v@.take(i as int),
        decreases v@.len() - i,
    {
        r.push(v[i]);
        assert(v@.take(i + 1) =~= v@.take(i as int).push(v@[i as int]));
        i = i + 1;
    }
    assert(v@.take(v@.len() as int) =~= v@);
    r
}

/// The steps that apply the extensions of `config` to its input file, in
/// order. Afterwards `config` reads the result of the last one.
pub fn apply_extensions(config: &mut Config) -> (steps: Vec<Step>)
    ensures
        extension_steps_are(
            steps@,
            old(config).extensions@,
            old(config).input_file@,
            old(config).output_file@,
        ),
        final(config).input_file@ == extension_input(
            old(config).input_file@,
            old(config).output_file@,
            old(config).extensions@.len() as int,
        ),
        final(config).output_file@ == old(config).output_file@,
        final(config).action == old(config).action,
        final(config).algorithm == old(config).algorithm,
        final(config).extensions@ == old(config).extensions@,
{
    let ghost input0 = config.input_file@;
    let ghost exts = config.extensions@;
    let ghost action = config.action;
    let ghost algorithm = config.algorithm;
    let output_file = config.output_file.clone();
    let mut steps: Vec<Step> = Vec::new();
    let n = config.extensions.len();
    let mut i: usize = 0;
    while i < n
        invariant
            n == exts.len(),
            config.extensions@ == exts,
            config.action == action,
            config.algorithm == algorithm,
            config.output_file@ == output_file@,
            i <= n,
            config.input_file@ == extension_input(input0, output_file@, i as int),
            extension_steps_are(steps@, exts.take(i as int), input0, output_file@),
        decreases n - i,
    {
        let name = tmp_file_name(output_file.as_str(), i);
        let step = Step {
            action: Action::ApplyExtension(config.extensions[i]),
            input_file: config.input_file.clone(),
            output_file: name.clone(),
        };
        steps.push(step);
        config.input_file = name;
        proof {
            assert forall|k: int| 0 <= k < i + 1 implies step_is(
                #[trigger] steps@[k],
                Action::ApplyExtension(exts.take(i + 1)[k]),
                extension_input(input0, output_file@, k),
                tmp_name(output_file@, k as nat),
            ) by {
                if k < i {
                    assert(exts.take(i as int)[k] == exts.take(i + 1)[k]);
                }
            }
        }
        i = i + 1;
    }
    assert(exts.take(n as int) =~= exts);
    config.output_file = output_file;
    steps
}

/// The steps that remove the extensions of `config` from its input file,
/// the last extension first; the last step writes the output file.
/// Afterwards `config` reads the result of the last one.
pub fn remove_extensions(config: &mut Config) -> (steps: Vec<Step>)
    ensures
        removal_steps_are(
            steps@,
            old(config).extensions@,
            old(config).input_file@,
            old(config).output_file@,
        ),
        final(config).input_file@ == (if old(config).extensions@.len() == 0 {
            old(config).input_file@
        } else {
            old(config).output_file@
        }),
        final(config).output_file@ == old(config).output_file@,
        final(config).action == old(config).action,
        final(config).algorithm == old(config).algorithm,
        final(config).extensions@ == old(config).extensions@,
{
    let ghost exts = config.extensions@;
    let ghost action = config.action;
    let ghost algorithm = config.algorithm;
    let input_file = config.input_file.clone();
    let output_file = config.output_file.clone();
    let mut steps: Vec<Step> = Vec::new();
    let n = config.extensions.len();
    let ghost nn = n as int;
    let mut i: usize = 0;
    while i < n
        invariant
            n == exts.len(),
            nn == n as int,
            config.extensions@ == exts,
            config.action == action,
            config.algorithm == algorithm,
            config.output_file@ == output_file@,
            i <= n,
            config.input_file@ == (if i == 0 {
                input_file@
            } else {
                removal_output(input_file@, output_file@, nn, i - 1)
            }),
            steps@.len() == i,
            forall|k: int|
                0 <= k < i ==> step_is(
                    #[trigger] steps@[k],
                    Action::RemoveExtension(exts[nn - 1 - k]),
                    removal_input(input_file@, k),
                    removal_output(input_file@, output_file@, nn, k),
                ),
        decreases n - i,
    {
        let name = if i == n - 1 {
            output_file.clone()
        } else {
            dec_tmp_file_name(input_file.as_str(), i + 1)
        };
        let step = Step {
            action: Action::RemoveExtension(config.extensions[n - 1 - i]),
            input_file: config.input_file.clone(),
            output_file: name.clone(),
        };
        let ghost before = steps@;
        steps.push(step);
        config.input_file = name;
        proof {
            assert forall|k: int| 0 <= k < i + 1 implies step_is(
                #[trigger] steps@[k],
                Action::RemoveExtension(exts[nn - 1 - k]),
                removal_input(input_file@, k),
                removal_output(input_file@, output_file@, nn, k),
            ) by {
                if k < i {
                    assert(steps@[k] == before[k]);
                }
            }
        }
        i = i + 1;
    }
    config.output_file = output_file;
    steps
}

/// The steps of encoding: the extensions, then the algorithm, which writes
/// the output file.
pub fn encoding_steps(config: &Config) -> (steps: Vec<Step>)
    ensures
        encoding_steps_are(
            steps@,
            config.extensions@,
            config.algorithm,
            config.input_file@,
            config.output_file@,
        ),
{
    let mut tmp_config = Config {
        action: config.action,
        input_file: config.input_file.clone(),
        output_file: config.output_file.clone(),
        algorithm: config.algorithm,
        extensions: copy_extensions(&config.extensions),
    };
    let mut steps = apply_extensions(&mut tmp_config);
    let ghost first = steps@;
    steps.push(
        Step {
            action: Action::Encode(tmp_config.algorithm),
            input_file: tmp_config.input_file.clone(),
            output_file: tmp_config.output_file.clone(),
        },
    );
    assert(steps@.take(first.len() as int) =~= first);
    steps
}

/// The steps of decoding: the algorithm, then the extensions removed in
/// reverse order.
pub fn decoding_steps(config: &Config) -> (steps: Vec<Step>)
    ensures
        decoding_steps_are(
            steps@,
            config.extensions@,
            config.algorithm,
            config.input_file@,
            config.output_file@,
        ),
{
    let mut steps: Vec<Step> = Vec::new();
    if config.extensions.len() == 0 {
        steps.push(
            Step {
                action: Action::Decode(config.algorithm),
                input_file: config.input_file.clone(),
                output_file: config.output_file.clone(),
            },
        );
        return steps;
    }
    let output_file = tmp_file_name(config.output_file.as_str(), 0);
    steps.push(
        Step {
            action: Action::Decode(config.algorithm),
            input_file: config.input_file.clone(),
            output_file: output_file.clone(),
        },
    );
    let mut tmp_config = Config {
        action: config.action,
        input_file: output_file,
        output_file: config.output_file.clone(),
        algorithm: config.algorithm,
        extensions: copy_extensions(&config.extensions),
    };
    let mut rest = remove_extensions(&mut tmp_config);
    let ghost first = steps@;
    let ghost removal = rest@;
    steps.append(&mut rest);
    assert(steps@.skip(1) =~= removal);
    steps
}

/// The steps of the command `config`.
pub fn command_steps(config: &Config) -> (steps: Vec<Step>)
    ensures
        match config.action {
            EncodeOption::Encode => encoding_steps_are(
                steps@,
                config.extensions@,
                config.algorithm,
                config.input_file@,
                config.output_file@,
            ),
            EncodeOption::Decode => decoding_steps_are(
                steps@,
                config.extensions@,
                config.algorithm,
                config.input_file@,
                config.output_file@,
            ),
        },
{
    match config.action {
        EncodeOption::Encode => encoding_steps(config),
        EncodeOption::Decode => decoding_steps(config),
    }
}

} // verus!
