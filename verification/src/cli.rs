//! Command-line options of the trainer and of the arena.
use vstd::prelude::*;
use vstd::string::StringSliceAdditionalSpecFns;

use crate::artifact::literal_bytes;
use crate::model_file::{first_in_range, lemma_first_in_range_bounds};
use crate::schedule::{player_count_allowed, validate_active_player_count};
use crate::text::{bytes_equal, copy_range, parse_usize_bytes, parse_usize_spec};

verus! {

/// The trainer's numeric options.
#[derive(Clone, Copy, Debug, PartialEq, Eq, Structural)]
pub enum TrainerNumber {
    Players,
    Generations,
}

#[derive(Clone, Copy, Debug, PartialEq, Eq, Structural)]
pub enum TrainerCliError {
    MissingResumeCheckpoint,
    MissingPlayers,
    MissingGenerations,
    /// The value is not an unsigned number.
    InvalidNumber(TrainerNumber),
    /// The value is zero.
    ZeroValue(TrainerNumber),
    InvalidPlayersPerGame(usize),
    /// The argument at this position is not an option.
    UnknownArgument(usize),
    SmokeAndDashboardStrict,
}

/// The trainer's options; paths are the argument's bytes.
#[derive(Clone, Debug)]
pub struct TrainerCli {
    pub smoke: bool,
    pub dashboard_strict: bool,
    pub use_cuda: bool,
    pub full_replays: bool,
    pub player_count_override: Option<usize>,
    pub generation_override: Option<usize>,
    pub resume_checkpoint: Option<Vec<u8>>,
}

pub struct TrainerCliView {
    pub smoke: bool,
    pub dashboard_strict: bool,
    pub use_cuda: bool,
    pub full_replays: bool,
    pub player_count_override: Option<usize>,
    pub generation_override: Option<usize>,
    pub resume_checkpoint: Option<Seq<u8>>,
}

impl View for TrainerCli {
    type V = TrainerCliView;

    open spec fn view(&self) -> TrainerCliView {
        TrainerCliView {
            smoke: self.smoke,
            dashboard_strict: self.dashboard_strict,
            use_cuda: self.use_cuda,
            full_replays: self.full_replays,
            player_count_override: self.player_count_override,
            generation_override: self.generation_override,
            resume_checkpoint: match self.resume_checkpoint {
                Some(path) => Some(path@),
                None => None,
            },
        }
    }
}

/// `value` starts with `prefix`.
pub open spec fn has_prefix(value: Seq<u8>, prefix: Seq<u8>) -> bool {
    prefix.len() <= value.len() && value.take(prefix.len() as int) == prefix
}

fn starts_with(value: &[u8], prefix: &[u8]) -> (starts: bool)
    ensures
        starts == has_prefix(value@, prefix@),
{
    if prefix.len() > value.len() {
        return false;
    }
    let head = vstd::slice::slice_subrange(value, 0, prefix.len());
    proof {
        assert(head@ =~= value@.take(prefix@.len() as int));
    }
    bytes_equal(head, prefix)
}

/// A positive count, as the trainer reads it.
pub open spec fn positive_usize_spec(option: TrainerNumber, value: Seq<u8>) -> Result<usize, TrainerCliError> {
    match parse_usize_spec(value) {
        None => Err(TrainerCliError::InvalidNumber(option)),
        Some(n) => if n == 0 {
            Err(TrainerCliError::ZeroValue(option))
        } else {
            Ok(n)
        },
    }
}

/// Parses a positive count for `option`.
pub fn parse_positive_usize(option: TrainerNumber, value: &[u8]) -> (parsed: Result<usize, TrainerCliError>)
    ensures
        parsed == positive_usize_spec(option, value@),
{
    let parsed = match parse_usize_bytes(value) {
        Some(n) => n,
        None => {
            return Err(TrainerCliError::InvalidNumber(option));
        },
    };
    if parsed == 0 {
        return Err(TrainerCliError::ZeroValue(option));
    }
    Ok(parsed)
}

pub open spec fn player_count_spec(value: Seq<u8>) -> Result<usize, TrainerCliError> {
    match positive_usize_spec(TrainerNumber::Players, value) {
        Err(e) => Err(e),
        Ok(n) => if player_count_allowed(n as int) {
            Ok(n)
        } else {
            Err(TrainerCliError::InvalidPlayersPerGame(n))
        },
    }
}

/// Parses the players per game: two or four.
pub fn parse_player_count(value: &[u8]) -> (parsed: Result<usize, TrainerCliError>)
    ensures
        parsed == player_count_spec(value@),
{
    let parsed = parse_positive_usize(TrainerNumber::Players, value)?;
    if validate_active_player_count(parsed).is_err() {
        return Err(TrainerCliError::InvalidPlayersPerGame(parsed));
    }
    Ok(parsed)
}

/// The backend the trainer runs on.
pub fn training_backend(cli: &TrainerCli) -> (backend: &'static str)
    ensures
        backend@ == if cli.use_cuda {
            "cuda"@
        } else {
            "cpu"@
        },
{
    if cli.use_cuda {
        "cuda"
    } else {
        "cpu"
    }
}

/// Where the trainer saves its checkpoint: the resumed checkpoint, or the default path.
pub fn trainer_checkpoint_save_path<'a>(cli: &'a TrainerCli, default_path: &'a [u8]) -> (path: &'a [u8])
    ensures
        path@ == match cli.resume_checkpoint {
            Some(resume) => resume@,
            None => default_path@,
        },
{
    match &cli.resume_checkpoint {
        Some(resume) => resume.as_slice(),
        None => default_path,
    }
}

pub open spec fn no_trainer_options() -> TrainerCliView {
    TrainerCliView {
        smoke: false,
        dashboard_strict: false,
        use_cuda: false,
        full_replays: false,
        player_count_override: None,
        generation_override: None,
        resume_checkpoint: None,
    }
}

/// The trainer's arguments from `index` on, read into `cli`.
pub open spec fn trainer_cli_from(args: Seq<Seq<u8>>, index: int, cli: TrainerCliView) -> Result<
    TrainerCliView,
    TrainerCliError,
>
    decreases args.len() - index,
{
    if index < 0 || index >= args.len() {
        if cli.smoke && cli.dashboard_strict {
            Err(TrainerCliError::SmokeAndDashboardStrict)
        } else {
            Ok(cli)
        }
    } else {
        let argument = args[index];
        if argument == "--smoke".spec_bytes() {
            trainer_cli_from(args, index + 1, TrainerCliView { smoke: true, ..cli })
        } else if argument == "--dashboard-strict".spec_bytes() {
            trainer_cli_from(args, index + 1, TrainerCliView { dashboard_strict: true, ..cli })
        } else if argument == "--cuda".spec_bytes() {
            trainer_cli_from(args, index + 1, TrainerCliView { use_cuda: true, ..cli })
        } else if argument == "--full-replays".spec_bytes() {
            trainer_cli_from(args, index + 1, TrainerCliView { full_replays: true, ..cli })
        } else if argument == "--resume-checkpoint".spec_bytes() {
            if index + 1 < args.len() {
                trainer_cli_from(
                    args,
                    index + 2,
                    TrainerCliView { resume_checkpoint: Some(args[index + 1]), ..cli },
                )
            } else {
                Err(TrainerCliError::MissingResumeCheckpoint)
            }
        } else if argument == "--players".spec_bytes() {
            if index + 1 < args.len() {
                match player_count_spec(args[index + 1]) {
                    Ok(n) => trainer_cli_from(
                        args,
                        index + 2,
                        TrainerCliView { player_count_override: Some(n), ..cli },
                    ),
                    Err(e) => Err(e),
                }
            } else {
                Err(TrainerCliError::MissingPlayers)
            }
        } else if argument == "--generations".spec_bytes() {
            if index + 1 < args.len() {
                match positive_usize_spec(TrainerNumber::Generations, args[index + 1]) {
                    Ok(n) => trainer_cli_from(
                        args,
                        index + 2,
                        TrainerCliView { generation_override: Some(n), ..cli },
                    ),
                    Err(e) => Err(e),
                }
            } else {
                Err(TrainerCliError::MissingGenerations)
            }
        } else if has_prefix(argument, "--generations=".spec_bytes()) {
            match positive_usize_spec(TrainerNumber::Generations, argument.skip(14)) {
                Ok(n) => trainer_cli_from(
                    args,
                    index + 1,
                    TrainerCliView { generation_override: Some(n), ..cli },
                ),
                Err(e) => Err(e),
            }
        } else if has_prefix(argument, "--players=".spec_bytes()) {
            match player_count_spec(argument.skip(10)) {
                Ok(n) => trainer_cli_from(
                    args,
                    index + 1,
                    TrainerCliView { player_count_override: Some(n), ..cli },
                ),
                Err(e) => Err(e),
            }
        } else if has_prefix(argument, "--resume-checkpoint=".spec_bytes()) {
            trainer_cli_from(
                args,
                index + 1,
                TrainerCliView { resume_checkpoint: Some(argument.skip(20)), ..cli },
            )
        } else {
            Err(TrainerCliError::UnknownArgument(index as usize))
        }
    }
}

pub open spec fn arguments_view(args: Seq<Vec<u8>>) -> Seq<Seq<u8>> {
    args.map_values(|a: Vec<u8>| a@)
}

fn argument_is(argument: &Vec<u8>, literal: &str) -> (equal: bool)
    requires
        vstd::string::is_ascii(literal),
    ensures
        equal == (argument@ == literal.spec_bytes()),
{
    bytes_equal(argument.as_slice(), literal_bytes(literal))
}

fn argument_starts_with(argument: &Vec<u8>, literal: &str) -> (starts: bool)
    requires
        vstd::string::is_ascii(literal),
    ensures
        starts == has_prefix(argument@, literal.spec_bytes()),
        literal.spec_bytes().len() == literal@.len(),
{
    starts_with(argument.as_slice(), literal_bytes(literal))
}

/// Reads the trainer argument at `index`; returns the index of the next one.
fn trainer_argument_step(args: &[Vec<u8>], index: usize, cli: &mut TrainerCli) -> (next: Result<
    usize,
    TrainerCliError,
>)
    requires
        index < args.len(),
    ensures
        match next {
            Ok(n) => index < n <= args.len() && trainer_cli_from(
                arguments_view(args@),
                index as int,
                old(cli)@,
            ) == trainer_cli_from(arguments_view(args@), n as int, final(cli)@),
            Err(e) => trainer_cli_from(arguments_view(args@), index as int, old(cli)@) == Err::<
                TrainerCliView,
                _,
            >(e),
        },
{
    proof {
        reveal_strlit("--smoke");
        reveal_strlit("--dashboard-strict");
        reveal_strlit("--cuda");
        reveal_strlit("--full-replays");
        reveal_strlit("--resume-checkpoint");
        reveal_strlit("--players");
        reveal_strlit("--generations");
        reveal_strlit("--generations=");
        reveal_strlit("--players=");
        reveal_strlit("--resume-checkpoint=");
    }
    let ghost view = arguments_view(args@);
    let argument = &args[index];
    assert(view[index as int] == argument@);
    if argument_is(argument, "--smoke") {
        cli.smoke = true;
        Ok(index + 1)
    } else if argument_is(argument, "--dashboard-strict") {
        cli.dashboard_strict = true;
        Ok(index + 1)
    } else if argument_is(argument, "--cuda") {
        cli.use_cuda = true;
        Ok(index + 1)
    } else if argument_is(argument, "--full-replays") {
        cli.full_replays = true;
        Ok(index + 1)
    } else if argument_is(argument, "--resume-checkpoint") {
        let value_index = index + 1;
        if value_index >= args.len() {
            return Err(TrainerCliError::MissingResumeCheckpoint);
        }
        let value = &args[value_index];
        assert(view[value_index as int] == value@);
        cli.resume_checkpoint = Some(copy_range(value.as_slice(), 0, value.len()));
        proof {
            assert(value@.subrange(0, value@.len() as int) =~= value@);
        }
        Ok(value_index + 1)
    } else if argument_is(argument, "--players") {
        let value_index = index + 1;
        if value_index >= args.len() {
            return Err(TrainerCliError::MissingPlayers);
        }
        let value = &args[value_index];
        assert(view[value_index as int] == value@);
        let players = parse_player_count(value.as_slice())?;
        cli.player_count_override = Some(players);
        Ok(value_index + 1)
    } else if argument_is(argument, "--generations") {
        let value_index = index + 1;
        if value_index >= args.len() {
            return Err(TrainerCliError::MissingGenerations);
        }
        let value = &args[value_index];
        assert(view[value_index as int] == value@);
        let generations = parse_positive_usize(TrainerNumber::Generations, value.as_slice())?;
        cli.generation_override = Some(generations);
        Ok(value_index + 1)
    } else if argument_starts_with(argument, "--generations=") {
        let raw = vstd::slice::slice_subrange(argument.as_slice(), 14, argument.len());
        assert(raw@ =~= argument@.skip(14));
        let generations = parse_positive_usize(TrainerNumber::Generations, raw)?;
        cli.generation_override = Some(generations);
        Ok(index + 1)
    } else if argument_starts_with(argument, "--players=") {
        let raw = vstd::slice::slice_subrange(argument.as_slice(), 10, argument.len());
        assert(raw@ =~= argument@.skip(10));
        let players = parse_player_count(raw)?;
        cli.player_count_override = Some(players);
        Ok(index + 1)
    } else if argument_starts_with(argument, "--resume-checkpoint=") {
        let raw = copy_range(argument.as_slice(), 20, argument.len());
        assert(raw@ =~= argument@.skip(20));
        cli.resume_checkpoint = Some(raw);
        Ok(index + 1)
    } else {
        Err(TrainerCliError::UnknownArgument(index))
    }
}

/// Reads the trainer's command line; `args[0]` is the program.
pub fn parse_trainer_cli(args: &[Vec<u8>]) -> (cli: Result<TrainerCli, TrainerCliError>)
    ensures
        match cli {
            Ok(c) => trainer_cli_from(arguments_view(args@), 1, no_trainer_options()) == Ok::<
                _,
                TrainerCliError,
            >(c@),
            Err(e) => trainer_cli_from(arguments_view(args@), 1, no_trainer_options()) == Err::<
                TrainerCliView,
                _,
            >(e),
        },
{
    let mut cli = TrainerCli {
        smoke: false,
        dashboard_strict: false,
        use_cuda: false,
        full_replays: false,
        player_count_override: None,
        generation_override: None,
        resume_checkpoint: None,
    };
    let mut argument_index: usize = 1;
    proof {
        if args@.len() == 0 {
            assert(trainer_cli_from(arguments_view(args@), 1, no_trainer_options())
                == trainer_cli_from(arguments_view(args@), 0, no_trainer_options()));
        }
    }
    while argument_index < args.len()
        invariant
            1 <= argument_index,
            trainer_cli_from(arguments_view(args@), 1, no_trainer_options()) == trainer_cli_from(
                arguments_view(args@),
                argument_index as int,
                cli@,
            ),
        decreases args.len() - argument_index,
    {
        argument_index = trainer_argument_step(args, argument_index, &mut cli)?;
    }
    if cli.smoke && cli.dashboard_strict {
        return Err(TrainerCliError::SmokeAndDashboardStrict);
    }
    Ok(cli)
}

/// The arena's numeric options.
#[derive(Clone, Copy, Debug, PartialEq, Eq, Structural)]
pub enum ArenaOption {
    Games,
    GamesPerModel,
    Players,
    ReplayStride,
    Workers,
    CpuWorkers,
}

/// Why an option's value was refused.
#[derive(Clone, Copy, Debug, PartialEq, Eq, Structural)]
pub enum ArenaArgError {
    /// The value is not an unsigned number.
    BadValue(ArenaOption),
    /// A count that must be positive is zero.
    ZeroValue(ArenaOption),
    UnknownKey,
}

/// Why the arena's command line was refused; indices count the arguments after the
/// program's name.
#[derive(Clone, Copy, Debug, PartialEq, Eq, Structural)]
pub enum ArenaCliError {
    /// The value in argument `index` was refused.
    Argument { error: ArenaArgError, index: usize },
    UnknownArgument(usize),
    /// The option in argument `index` is the last argument and has no value.
    MissingValue(usize),
}

pub const DEFAULT_GAMES: usize = 16;

pub const DEFAULT_GAMES_PER_MODEL: usize = 20;

pub const DEFAULT_PLAYERS: usize = 2;

/// The arena's options; paths are the argument's bytes.
#[derive(Clone, Debug)]
pub struct ArenaCli {
    pub games: usize,
    pub games_per_model: usize,
    pub players: usize,
    pub replay_stride: usize,
    pub workers: usize,
    pub cpu_workers: usize,
    pub cuda_v8_smoke: bool,
    pub cuda_v8_forward_smoke: bool,
    pub cuda_sim_parity_smoke: bool,
    pub cuda_v8: bool,
    pub gpu_sim: bool,
    pub output: Vec<u8>,
    pub model: Option<Vec<u8>>,
    pub model_list: Option<Vec<u8>>,
}

pub struct ArenaCliView {
    pub games: usize,
    pub games_per_model: usize,
    pub players: usize,
    pub replay_stride: usize,
    pub workers: usize,
    pub cpu_workers: usize,
    pub cuda_v8_smoke: bool,
    pub cuda_v8_forward_smoke: bool,
    pub cuda_sim_parity_smoke: bool,
    pub cuda_v8: bool,
    pub gpu_sim: bool,
    pub output: Seq<u8>,
    pub model: Option<Seq<u8>>,
    pub model_list: Option<Seq<u8>>,
}

pub open spec fn optional_bytes(value: Option<Vec<u8>>) -> Option<Seq<u8>> {
    match value {
        Some(v) => Some(v@),
        None => None,
    }
}

impl View for ArenaCli {
    type V = ArenaCliView;

    open spec fn view(&self) -> ArenaCliView {
        ArenaCliView {
            games: self.games,
            games_per_model: self.games_per_model,
            players: self.players,
            replay_stride: self.replay_stride,
            workers: self.workers,
            cpu_workers: self.cpu_workers,
            cuda_v8_smoke: self.cuda_v8_smoke,
            cuda_v8_forward_smoke: self.cuda_v8_forward_smoke,
            cuda_sim_parity_smoke: self.cuda_sim_parity_smoke,
            cuda_v8: self.cuda_v8,
            gpu_sim: self.gpu_sim,
            output: self.output@,
            model: optional_bytes(self.model),
            model_list: optional_bytes(self.model_list),
        }
    }
}

pub open spec fn default_arena_options() -> ArenaCliView {
    ArenaCliView {
        games: DEFAULT_GAMES,
        games_per_model: DEFAULT_GAMES_PER_MODEL,
        players: DEFAULT_PLAYERS,
        replay_stride: 1,
        workers: 1,
        cpu_workers: 1,
        cuda_v8_smoke: false,
        cuda_v8_forward_smoke: false,
        cuda_sim_parity_smoke: false,
        cuda_v8: false,
        gpu_sim: false,
        output: "dashboard/public/telemetry/latest.json".spec_bytes(),
        model: None,
        model_list: None,
    }
}

/// A count option: the parsed value, or the refusal.
pub open spec fn arena_count(option: ArenaOption, value: Seq<u8>) -> Result<usize, ArenaArgError> {
    match parse_usize_spec(value) {
        Some(n) => Ok(n),
        None => Err(ArenaArgError::BadValue(option)),
    }
}

/// `key=value` applied to the options: the options afterwards (a positive count is
/// stored before it is found to be zero) and whether the value was accepted.
pub open spec fn apply_arg_spec(cli: ArenaCliView, key: Seq<u8>, value: Seq<u8>) -> (
    ArenaCliView,
    Result<(), ArenaArgError>,
) {
    if key == "--games".spec_bytes() {
        match arena_count(ArenaOption::Games, value) {
            Ok(n) => (ArenaCliView { games: n, ..cli }, Ok(())),
            Err(e) => (cli, Err(e)),
        }
    } else if key == "--games-per-model".spec_bytes() {
        match arena_count(ArenaOption::GamesPerModel, value) {
            Ok(n) => (ArenaCliView { games_per_model: n, ..cli }, Ok(())),
            Err(e) => (cli, Err(e)),
        }
    } else if key == "--players".spec_bytes() {
        match arena_count(ArenaOption::Players, value) {
            Ok(n) => (ArenaCliView { players: n, ..cli }, Ok(())),
            Err(e) => (cli, Err(e)),
        }
    } else if key == "--workers".spec_bytes() {
        match arena_count(ArenaOption::Workers, value) {
            Ok(n) => (
                ArenaCliView { workers: n, ..cli },
                if n == 0 {
                    Err(ArenaArgError::ZeroValue(ArenaOption::Workers))
                } else {
                    Ok(())
                },
            ),
            Err(e) => (cli, Err(e)),
        }
    } else if key == "--cpu-workers".spec_bytes() {
        match arena_count(ArenaOption::CpuWorkers, value) {
            Ok(n) => (
                ArenaCliView { cpu_workers: n, ..cli },
                if n == 0 {
                    Err(ArenaArgError::ZeroValue(ArenaOption::CpuWorkers))
                } else {
                    Ok(())
                },
            ),
            Err(e) => (cli, Err(e)),
        }
    } else if key == "--replay-stride".spec_bytes() {
        match arena_count(ArenaOption::ReplayStride, value) {
            Ok(n) => (
                ArenaCliView { replay_stride: n, ..cli },
                if n == 0 {
                    Err(ArenaArgError::ZeroValue(ArenaOption::ReplayStride))
                } else {
                    Ok(())
                },
            ),
            Err(e) => (cli, Err(e)),
        }
    } else if key == "--output".spec_bytes() {
        (ArenaCliView { output: value, ..cli }, Ok(()))
    } else if key == "--model".spec_bytes() {
        (ArenaCliView { model: Some(value), ..cli }, Ok(()))
    } else if key == "--model-list".spec_bytes() {
        (ArenaCliView { model_list: Some(value), ..cli }, Ok(()))
    } else {
        (cli, Err(ArenaArgError::UnknownKey))
    }
}

fn parse_count(option: ArenaOption, value: &[u8]) -> (parsed: Result<usize, ArenaArgError>)
    ensures
        parsed == arena_count(option, value@),
{
    match parse_usize_bytes(value) {
        Some(n) => Ok(n),
        None => Err(ArenaArgError::BadValue(option)),
    }
}

fn slice_is(value: &[u8], literal: &str) -> (equal: bool)
    requires
        vstd::string::is_ascii(literal),
    ensures
        equal == (value@ == literal.spec_bytes()),
{
    bytes_equal(value, literal_bytes(literal))
}

fn owned_bytes(value: &[u8]) -> (owned: Vec<u8>)
    ensures
        owned@ == value@,
{
    let owned = copy_range(value, 0, value.len());
    assert(value@.subrange(0, value@.len() as int) =~= value@);
    owned
}

/// Applies `key=value` to the arena's options.
pub fn apply_arg(cli: &mut ArenaCli, key: &[u8], value: &[u8]) -> (result: Result<(), ArenaArgError>)
    ensures
        (final(cli)@, result) == apply_arg_spec(old(cli)@, key@, value@),
{
    proof {
        reveal_strlit("--games");
        reveal_strlit("--games-per-model");
        reveal_strlit("--players");
        reveal_strlit("--workers");
        reveal_strlit("--cpu-workers");
        reveal_strlit("--replay-stride");
        reveal_strlit("--output");
        reveal_strlit("--model");
        reveal_strlit("--model-list");
    }
    if slice_is(key, "--games") {
        cli.games = parse_count(ArenaOption::Games, value)?;
    } else if slice_is(key, "--games-per-model") {
        cli.games_per_model = parse_count(ArenaOption::GamesPerModel, value)?;
    } else if slice_is(key, "--players") {
        cli.players = parse_count(ArenaOption::Players, value)?;
    } else if slice_is(key, "--workers") {
        cli.workers = parse_count(ArenaOption::Workers, value)?;
        if cli.workers == 0 {
            return Err(ArenaArgError::ZeroValue(ArenaOption::Workers));
        }
    } else if slice_is(key, "--cpu-workers") {
        cli.cpu_workers = parse_count(ArenaOption::CpuWorkers, value)?;
        if cli.cpu_workers == 0 {
            return Err(ArenaArgError::ZeroValue(ArenaOption::CpuWorkers));
        }
    } else if slice_is(key, "--replay-stride") {
        cli.replay_stride = parse_count(ArenaOption::ReplayStride, value)?;
        if cli.replay_stride == 0 {
            return Err(ArenaArgError::ZeroValue(ArenaOption::ReplayStride));
        }
    } else if slice_is(key, "--output") {
        cli.output = owned_bytes(value);
    } else if slice_is(key, "--model") {
        cli.model = Some(owned_bytes(value));
    } else if slice_is(key, "--model-list") {
        cli.model_list = Some(owned_bytes(value));
    } else {
        return Err(ArenaArgError::UnknownKey);
    }
    Ok(())
}

/// The options that take their value from the next argument.
pub open spec fn takes_value(argument: Seq<u8>) -> bool {
    ||| argument == "--games".spec_bytes()
    ||| argument == "--games-per-model".spec_bytes()
    ||| argument == "--players".spec_bytes()
    ||| argument == "--replay-stride".spec_bytes()
    ||| argument == "--workers".spec_bytes()
    ||| argument == "--cpu-workers".spec_bytes()
    ||| argument == "--output".spec_bytes()
    ||| argument == "--model".spec_bytes()
    ||| argument == "--model-list".spec_bytes()
}

/// The arena's arguments from `index` on, read into `cli`; `pending` is the option
/// waiting for its value.
pub open spec fn arena_cli_from(
    args: Seq<Seq<u8>>,
    index: int,
    cli: ArenaCliView,
    pending: Option<int>,
) -> Result<ArenaCliView, ArenaCliError>
    decreases args.len() - index,
{
    if index < 0 || index >= args.len() {
        match pending {
            Some(key_index) => Err(ArenaCliError::MissingValue(key_index as usize)),
            None => Ok(cli),
        }
    } else {
        let argument = args[index];
        match pending {
            Some(key_index) => {
                let (next, accepted) = apply_arg_spec(cli, args[key_index], argument);
                match accepted {
                    Ok(()) => arena_cli_from(args, index + 1, next, None),
                    Err(e) => Err(ArenaCliError::Argument { error: e, index: index as usize }),
                }
            },
            None => {
                let equals = first_in_range(argument, 61u8, 0, argument.len() as int);
                if equals < argument.len() {
                    let (next, accepted) = apply_arg_spec(
                        cli,
                        argument.take(equals),
                        argument.skip(equals + 1),
                    );
                    match accepted {
                        Ok(()) => arena_cli_from(args, index + 1, next, None),
                        Err(e) => Err(ArenaCliError::Argument { error: e, index: index as usize }),
                    }
                } else if argument == "--cuda-v8-smoke".spec_bytes() {
                    arena_cli_from(args, index + 1, ArenaCliView { cuda_v8_smoke: true, ..cli }, None)
                } else if argument == "--cuda-v8-forward-smoke".spec_bytes() {
                    arena_cli_from(
                        args,
                        index + 1,
                        ArenaCliView { cuda_v8_forward_smoke: true, ..cli },
                        None,
                    )
                } else if argument == "--cuda-sim-parity-smoke".spec_bytes() {
                    arena_cli_from(
                        args,
                        index + 1,
                        ArenaCliView { cuda_sim_parity_smoke: true, ..cli },
                        None,
                    )
                } else if argument == "--cuda-v8".spec_bytes() {
                    arena_cli_from(args, index + 1, ArenaCliView { cuda_v8: true, ..cli }, None)
                } else if argument == "--gpu-sim".spec_bytes() {
                    arena_cli_from(args, index + 1, ArenaCliView { gpu_sim: true, ..cli }, None)
                } else if takes_value(argument) {
                    arena_cli_from(args, index + 1, cli, Some(index))
                } else {
                    Err(ArenaCliError::UnknownArgument(index as usize))
                }
            },
        }
    }
}

fn arena_flag(cli: &mut ArenaCli, argument: &[u8]) -> (known: bool)
    ensures
        known == (argument@ == "--cuda-v8-smoke".spec_bytes() || argument@
            == "--cuda-v8-forward-smoke".spec_bytes() || argument@
            == "--cuda-sim-parity-smoke".spec_bytes() || argument@ == "--cuda-v8".spec_bytes()
            || argument@ == "--gpu-sim".spec_bytes()),
        known ==> final(cli)@ == if argument@ == "--cuda-v8-smoke".spec_bytes() {
            ArenaCliView { cuda_v8_smoke: true, ..old(cli)@ }
        } else if argument@ == "--cuda-v8-forward-smoke".spec_bytes() {
            ArenaCliView { cuda_v8_forward_smoke: true, ..old(cli)@ }
        } else if argument@ == "--cuda-sim-parity-smoke".spec_bytes() {
            ArenaCliView { cuda_sim_parity_smoke: true, ..old(cli)@ }
        } else if argument@ == "--cuda-v8".spec_bytes() {
            ArenaCliView { cuda_v8: true, ..old(cli)@ }
        } else {
            ArenaCliView { gpu_sim: true, ..old(cli)@ }
        },
        !known ==> final(cli)@ == old(cli)@,
{
    proof {
        reveal_strlit("--cuda-v8-smoke");
        reveal_strlit("--cuda-v8-forward-smoke");
        reveal_strlit("--cuda-sim-parity-smoke");
        reveal_strlit("--cuda-v8");
        reveal_strlit("--gpu-sim");
    }
    if slice_is(argument, "--cuda-v8-smoke") {
        cli.cuda_v8_smoke = true;
    } else if slice_is(argument, "--cuda-v8-forward-smoke") {
        cli.cuda_v8_forward_smoke = true;
    } else if slice_is(argument, "--cuda-sim-parity-smoke") {
        cli.cuda_sim_parity_smoke = true;
    } else if slice_is(argument, "--cuda-v8") {
        cli.cuda_v8 = true;
    } else if slice_is(argument, "--gpu-sim") {
        cli.gpu_sim = true;
    } else {
        return false;
    }
    true
}

fn takes_value_exec(argument: &[u8]) -> (takes: bool)
    ensures
        takes == takes_value(argument@),
{
    proof {
        reveal_strlit("--games");
        reveal_strlit("--games-per-model");
        reveal_strlit("--players");
        reveal_strlit("--replay-stride");
        reveal_strlit("--workers");
        reveal_strlit("--cpu-workers");
        reveal_strlit("--output");
        reveal_strlit("--model");
        reveal_strlit("--model-list");
    }
    slice_is(argument, "--games") || slice_is(argument, "--games-per-model") || slice_is(
        argument,
        "--players",
    ) || slice_is(argument, "--replay-stride") || slice_is(argument, "--workers") || slice_is(
        argument,
        "--cpu-workers",
    ) || slice_is(argument, "--output") || slice_is(argument, "--model") || slice_is(
        argument,
        "--model-list",
    )
}

fn first_in_range_of(s: &[u8], byte: u8) -> (found: usize)
    ensures
        found == first_in_range(s@, byte, 0, s@.len() as int),
        found <= s.len(),
{
    proof {
        lemma_first_in_range_bounds(s@, byte, 0, s@.len() as int);
    }
    let mut i: usize = 0;
    while i < s.len()
        invariant
            i <= s.len(),
            first_in_range(s@, byte, i as int, s@.len() as int) == first_in_range(
                s@,
                byte,
                0,
                s@.len() as int,
            ),
        decreases s.len() - i,
    {
        if s[i] == byte {
            return i;
        }
        i += 1;
    }
    i
}

/// Reads the arena's command line: the arguments after the program's name.
pub fn parse_cli(args: &[Vec<u8>]) -> (cli: Result<ArenaCli, ArenaCliError>)
    ensures
        match cli {
            Ok(c) => arena_cli_from(arguments_view(args@), 0, default_arena_options(), None) == Ok::<
                _,
                ArenaCliError,
            >(c@),
            Err(e) => arena_cli_from(arguments_view(args@), 0, default_arena_options(), None)
                == Err::<ArenaCliView, _>(e),
        },
{
    proof {
        reveal_strlit("dashboard/public/telemetry/latest.json");
    }
    let mut cli = ArenaCli {
        games: DEFAULT_GAMES,
        games_per_model: DEFAULT_GAMES_PER_MODEL,
        players: DEFAULT_PLAYERS,
        replay_stride: 1,
        workers: 1,
        cpu_workers: 1,
        cuda_v8_smoke: false,
        cuda_v8_forward_smoke: false,
        cuda_sim_parity_smoke: false,
        cuda_v8: false,
        gpu_sim: false,
        output: owned_bytes(literal_bytes("dashboard/public/telemetry/latest.json")),
        model: None,
        model_list: None,
    };
    let ghost view = arguments_view(args@);
    let mut pending_key: Option<usize> = None;
    let mut index: usize = 0;
    while index < args.len()
        invariant
            view == arguments_view(args@),
            index <= args.len(),
            pending_key matches Some(k) ==> k < index,
            arena_cli_from(view, 0, default_arena_options(), None) == arena_cli_from(
                view,
                index as int,
                cli@,
                match pending_key {
                    Some(k) => Some(k as int),
                    None => None,
                },
            ),
        decreases args.len() - index,
    {
        let argument = args[index].as_slice();
        assert(view[index as int] == argument@);
        match pending_key {
            Some(key_index) => {
                assert(view[key_index as int] == args@[key_index as int]@);
                match apply_arg(&mut cli, args[key_index].as_slice(), argument) {
                    Ok(()) => {},
                    Err(e) => {
                        return Err(ArenaCliError::Argument { error: e, index });
                    },
                }
                pending_key = None;
            },
            None => {
                let equals = first_in_range_of(argument, 61u8);
                if equals < argument.len() {
                    let key = vstd::slice::slice_subrange(argument, 0, equals);
                    let value = vstd::slice::slice_subrange(argument, equals + 1, argument.len());
                    proof {
                        assert(key@ =~= argument@.take(equals as int));
                        assert(value@ =~= argument@.skip(equals + 1));
                    }
                    match apply_arg(&mut cli, key, value) {
                        Ok(()) => {},
                        Err(e) => {
                            return Err(ArenaCliError::Argument { error: e, index });
                        },
                    }
                } else if arena_flag(&mut cli, argument) {
                } else if takes_value_exec(argument) {
                    pending_key = Some(index);
                } else {
                    return Err(ArenaCliError::UnknownArgument(index));
                }
            },
        }
        index += 1;
    }
    if let Some(key_index) = pending_key {
        return Err(ArenaCliError::MissingValue(key_index));
    }
    Ok(cli)
}

/// A count option sets its own count and nothing else: `--games`, `--games-per-model`
/// and `--players` with a number store it in that option, leave every other option as
/// it was and accept the value; a value that is not a number changes nothing.
pub proof fn law_count_option_sets_only_its_own_count(cli: ArenaCliView, value: Seq<u8>)
    ensures
        parse_usize_spec(value) matches Some(n) ==> {
            &&& apply_arg_spec(cli, "--games".spec_bytes(), value) == (
                ArenaCliView { games: n, ..cli },
                Ok::<(), ArenaArgError>(()),
            )
            &&& apply_arg_spec(cli, "--games-per-model".spec_bytes(), value) == (
                ArenaCliView { games_per_model: n, ..cli },
                Ok::<(), ArenaArgError>(()),
            )
            &&& apply_arg_spec(cli, "--players".spec_bytes(), value) == (
                ArenaCliView { players: n, ..cli },
                Ok::<(), ArenaArgError>(()),
            )
        },
        parse_usize_spec(value) is None ==> {
            &&& apply_arg_spec(cli, "--games".spec_bytes(), value).0 == cli
            &&& apply_arg_spec(cli, "--games-per-model".spec_bytes(), value).0 == cli
            &&& apply_arg_spec(cli, "--players".spec_bytes(), value).0 == cli
        },
{
    reveal_strlit("--games");
    reveal_strlit("--games-per-model");
    reveal_strlit("--players");
    vstd::string::is_ascii_spec_bytes("--games");
    vstd::string::is_ascii_spec_bytes("--games-per-model");
    vstd::string::is_ascii_spec_bytes("--players");
    assert("--games-per-model".spec_bytes() != "--games".spec_bytes()) by {
        assert("--games-per-model".spec_bytes().len() != "--games".spec_bytes().len());
    }
    assert("--players".spec_bytes() != "--games".spec_bytes()) by {
        assert("--players".spec_bytes()[2] != "--games".spec_bytes()[2]);
    }
    assert("--players".spec_bytes() != "--games-per-model".spec_bytes()) by {
        assert("--players".spec_bytes().len() != "--games-per-model".spec_bytes().len());
    }
}

/// The other options also set only themselves: a positive `--workers`,
/// `--cpu-workers` or `--replay-stride` is stored and accepted, a zero one is stored and
/// refused, and `--output`, `--model` and `--model-list` store the value as given; an
/// unknown key changes nothing and is refused.
pub proof fn law_each_option_sets_only_itself(cli: ArenaCliView, key: Seq<u8>, value: Seq<u8>)
    ensures
        parse_usize_spec(value) matches Some(n) ==> {
            &&& apply_arg_spec(cli, "--workers".spec_bytes(), value).0 == ArenaCliView {
                workers: n,
                ..cli
            }
            &&& apply_arg_spec(cli, "--cpu-workers".spec_bytes(), value).0 == ArenaCliView {
                cpu_workers: n,
                ..cli
            }
            &&& apply_arg_spec(cli, "--replay-stride".spec_bytes(), value).0 == ArenaCliView {
                replay_stride: n,
                ..cli
            }
            &&& (apply_arg_spec(cli, "--workers".spec_bytes(), value).1 is Ok <==> n > 0)
            &&& (apply_arg_spec(cli, "--cpu-workers".spec_bytes(), value).1 is Ok <==> n > 0)
            &&& (apply_arg_spec(cli, "--replay-stride".spec_bytes(), value).1 is Ok <==> n > 0)
        },
        apply_arg_spec(cli, "--output".spec_bytes(), value) == (
            ArenaCliView { output: value, ..cli },
            Ok::<(), ArenaArgError>(()),
        ),
        apply_arg_spec(cli, "--model".spec_bytes(), value) == (
            ArenaCliView { model: Some(value), ..cli },
            Ok::<(), ArenaArgError>(()),
        ),
        apply_arg_spec(cli, "--model-list".spec_bytes(), value) == (
            ArenaCliView { model_list: Some(value), ..cli },
            Ok::<(), ArenaArgError>(()),
        ),
        key.len() > 0 && key[0] != 45 ==> apply_arg_spec(cli, key, value) == (
            cli,
            Err::<(), ArenaArgError>(ArenaArgError::UnknownKey),
        ),
{
    reveal_strlit("--games");
    reveal_strlit("--games-per-model");
    reveal_strlit("--players");
    reveal_strlit("--workers");
    reveal_strlit("--cpu-workers");
    reveal_strlit("--replay-stride");
    reveal_strlit("--output");
    reveal_strlit("--model");
    reveal_strlit("--model-list");
    vstd::string::is_ascii_spec_bytes("--games");
    vstd::string::is_ascii_spec_bytes("--games-per-model");
    vstd::string::is_ascii_spec_bytes("--players");
    vstd::string::is_ascii_spec_bytes("--workers");
    vstd::string::is_ascii_spec_bytes("--cpu-workers");
    vstd::string::is_ascii_spec_bytes("--replay-stride");
    vstd::string::is_ascii_spec_bytes("--output");
    vstd::string::is_ascii_spec_bytes("--model");
    vstd::string::is_ascii_spec_bytes("--model-list");
    let keys = seq![
        "--games".spec_bytes(),
        "--games-per-model".spec_bytes(),
        "--players".spec_bytes(),
        "--workers".spec_bytes(),
        "--cpu-workers".spec_bytes(),
        "--replay-stride".spec_bytes(),
        "--output".spec_bytes(),
        "--model".spec_bytes(),
        "--model-list".spec_bytes(),
    ];
    assert(forall|i: int| 0 <= i < keys.len() ==> (#[trigger] keys[i]).len() > 2 && keys[i][0] == 45);
    // Keys of different lengths, or differing at their third byte, are different.
    assert("--workers".spec_bytes() != "--games".spec_bytes()) by {
        assert("--workers".spec_bytes()[2] != "--games".spec_bytes()[2]);
    }
    assert("--workers".spec_bytes() != "--players".spec_bytes()) by {
        assert("--workers".spec_bytes()[2] != "--players".spec_bytes()[2]);
    }
    assert("--workers".spec_bytes() != "--games-per-model".spec_bytes()) by {
        assert("--workers".spec_bytes()[2] != "--games-per-model".spec_bytes()[2]);
    }
    assert("--cpu-workers".spec_bytes() != "--games".spec_bytes()) by {
        assert("--cpu-workers".spec_bytes()[2] != "--games".spec_bytes()[2]);
    }
    assert("--cpu-workers".spec_bytes() != "--players".spec_bytes()) by {
        assert("--cpu-workers".spec_bytes()[2] != "--players".spec_bytes()[2]);
    }
    assert("--cpu-workers".spec_bytes() != "--games-per-model".spec_bytes()) by {
        assert("--cpu-workers".spec_bytes()[2] != "--games-per-model".spec_bytes()[2]);
    }
    assert("--cpu-workers".spec_bytes() != "--workers".spec_bytes()) by {
        assert("--cpu-workers".spec_bytes()[2] != "--workers".spec_bytes()[2]);
    }
    assert("--replay-stride".spec_bytes() != "--games".spec_bytes()) by {
        assert("--replay-stride".spec_bytes()[2] != "--games".spec_bytes()[2]);
    }
    assert("--replay-stride".spec_bytes() != "--players".spec_bytes()) by {
        assert("--replay-stride".spec_bytes()[2] != "--players".spec_bytes()[2]);
    }
    assert("--replay-stride".spec_bytes() != "--games-per-model".spec_bytes()) by {
        assert("--replay-stride".spec_bytes()[2] != "--games-per-model".spec_bytes()[2]);
    }
    assert("--replay-stride".spec_bytes() != "--workers".spec_bytes()) by {
        assert("--replay-stride".spec_bytes()[2] != "--workers".spec_bytes()[2]);
    }
    assert("--replay-stride".spec_bytes() != "--cpu-workers".spec_bytes()) by {
        assert("--replay-stride".spec_bytes()[2] != "--cpu-workers".spec_bytes()[2]);
    }
    assert forall|i: int| 0 <= i < 6 implies #[trigger] keys[i] != "--output".spec_bytes() by {
        assert(keys[i][2] != "--output".spec_bytes()[2]);
    }
    assert forall|i: int| 0 <= i < 7 implies #[trigger] keys[i] != "--model".spec_bytes() by {
        assert(keys[i][2] != "--model".spec_bytes()[2] || keys[i].len() != "--model".spec_bytes().len());
    }
    assert forall|i: int| 0 <= i < 8 implies #[trigger] keys[i] != "--model-list".spec_bytes() by {
        assert(keys[i][2] != "--model-list".spec_bytes()[2] || keys[i].len() != "--model-list".spec_bytes().len());
    }
    assert(keys[6] == "--output".spec_bytes());
    assert(keys[7] == "--model".spec_bytes());
    if key.len() > 0 && key[0] != 45 {
        assert forall|i: int| 0 <= i < keys.len() implies #[trigger] keys[i] != key by {
            assert(keys[i][0] != key[0]);
        }
        assert(key != keys[0] && key != keys[1] && key != keys[2] && key != keys[3] && key != keys[4]
            && key != keys[5] && key != keys[6] && key != keys[7] && key != keys[8]);
    }
}

} // verus!
