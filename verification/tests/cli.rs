use orbit_wars::cli::{
    apply_arg, parse_cli, parse_player_count, parse_positive_usize, parse_trainer_cli,
    trainer_checkpoint_save_path, training_backend, ArenaArgError, ArenaCliError, ArenaOption,
    TrainerCliError, TrainerNumber,
};

fn args(values: &[&str]) -> Vec<Vec<u8>> {
    values.iter().map(|value| value.as_bytes().to_vec()).collect()
}

#[test]
fn trainer_cli_reads_flags_and_values() {
    let cli = parse_trainer_cli(&args(&[
        "trainer",
        "--smoke",
        "--cuda",
        "--players=2",
        "--generations",
        "3",
        "--resume-checkpoint",
        "x.bin",
    ]))
    .unwrap();
    assert!(cli.smoke);
    assert!(cli.use_cuda);
    assert!(!cli.dashboard_strict);
    assert!(!cli.full_replays);
    assert_eq!(cli.player_count_override, Some(2));
    assert_eq!(cli.generation_override, Some(3));
    assert_eq!(cli.resume_checkpoint, Some(b"x.bin".to_vec()));
    assert_eq!(training_backend(&cli), "cuda");
}

#[test]
fn trainer_cli_refusals() {
    assert_eq!(
        parse_trainer_cli(&args(&["trainer", "--smoke", "--dashboard-strict"])).err(),
        Some(TrainerCliError::SmokeAndDashboardStrict)
    );
    assert_eq!(
        parse_trainer_cli(&args(&["trainer", "--players"])).err(),
        Some(TrainerCliError::MissingPlayers)
    );
    assert_eq!(
        parse_trainer_cli(&args(&["trainer", "--players=3"])).err(),
        Some(TrainerCliError::InvalidPlayersPerGame(3))
    );
    assert_eq!(
        parse_trainer_cli(&args(&["trainer", "--generations=0"])).err(),
        Some(TrainerCliError::ZeroValue(TrainerNumber::Generations))
    );
    assert_eq!(
        parse_trainer_cli(&args(&["trainer", "--generations", "x"])).err(),
        Some(TrainerCliError::InvalidNumber(TrainerNumber::Generations))
    );
    assert_eq!(
        parse_trainer_cli(&args(&["trainer", "--full-replays", "--bogus"])).err(),
        Some(TrainerCliError::UnknownArgument(2))
    );
    assert_eq!(
        parse_trainer_cli(&args(&["trainer", "--resume-checkpoint"])).err(),
        Some(TrainerCliError::MissingResumeCheckpoint)
    );
    assert_eq!(
        parse_trainer_cli(&args(&["trainer", "--generations"])).err(),
        Some(TrainerCliError::MissingGenerations)
    );
}

#[test]
fn default_trainer_cli_uses_the_cpu() {
    let cli = parse_trainer_cli(&args(&["trainer"])).unwrap();
    assert_eq!(training_backend(&cli), "cpu");
    assert_eq!(cli.player_count_override, None);
    assert_eq!(cli.resume_checkpoint, None);
}

#[test]
fn checkpoint_save_path_uses_resume_checkpoint_when_supplied() {
    let cli = parse_trainer_cli(&args(&[
        "trainer",
        "--resume-checkpoint",
        "artifacts/custom_resume.checkpoint.bin",
    ]))
    .unwrap();
    assert_eq!(
        trainer_checkpoint_save_path(&cli, b"artifacts/trainer.checkpoint.bin"),
        b"artifacts/custom_resume.checkpoint.bin"
    );
}

#[test]
fn checkpoint_save_path_uses_config_default_without_resume() {
    let cli = parse_trainer_cli(&args(&["trainer"])).unwrap();
    assert_eq!(
        trainer_checkpoint_save_path(&cli, b"artifacts/trainer.checkpoint.bin"),
        b"artifacts/trainer.checkpoint.bin"
    );
}

#[test]
fn positive_numbers_and_player_counts() {
    assert_eq!(parse_positive_usize(TrainerNumber::Generations, b"+12"), Ok(12));
    assert_eq!(
        parse_positive_usize(TrainerNumber::Generations, b"0"),
        Err(TrainerCliError::ZeroValue(TrainerNumber::Generations))
    );
    assert_eq!(
        parse_positive_usize(TrainerNumber::Players, b"-1"),
        Err(TrainerCliError::InvalidNumber(TrainerNumber::Players))
    );
    assert_eq!(parse_player_count(b"4"), Ok(4));
    assert_eq!(parse_player_count(b"5"), Err(TrainerCliError::InvalidPlayersPerGame(5)));
}

#[test]
fn arena_cli_reads_pairs_flags_and_pending_values() {
    let cli = parse_cli(&args(&["--games=4", "--players", "4", "--gpu-sim", "--output", "out.json", "--model-list=list.txt"])).unwrap();
    assert_eq!(cli.games, 4);
    assert_eq!(cli.players, 4);
    assert!(cli.gpu_sim);
    assert!(!cli.cuda_v8);
    assert_eq!(cli.output, b"out.json".to_vec());
    assert_eq!(cli.model_list, Some(b"list.txt".to_vec()));
    assert_eq!(cli.model, None);
    assert_eq!(cli.games_per_model, 20);
}

#[test]
fn arena_cli_defaults() {
    let cli = parse_cli(&[]).unwrap();
    assert_eq!(cli.games, 16);
    assert_eq!(cli.players, 2);
    assert_eq!(cli.workers, 1);
    assert_eq!(cli.replay_stride, 1);
    assert_eq!(cli.output, b"dashboard/public/telemetry/latest.json".to_vec());
}

#[test]
fn arena_cli_refusals() {
    assert_eq!(
        parse_cli(&args(&["--workers=0"])).err(),
        Some(ArenaCliError::Argument { error: ArenaArgError::ZeroValue(ArenaOption::Workers), index: 0 })
    );
    assert_eq!(parse_cli(&args(&["--cuda-v8", "--games"])).err(), Some(ArenaCliError::MissingValue(1)));
    assert_eq!(parse_cli(&args(&["--nope"])).err(), Some(ArenaCliError::UnknownArgument(0)));
    assert_eq!(
        parse_cli(&args(&["--gpu-sim=1"])).err(),
        Some(ArenaCliError::Argument { error: ArenaArgError::UnknownKey, index: 0 })
    );
    assert_eq!(
        parse_cli(&args(&["--games", "many"])).err(),
        Some(ArenaCliError::Argument { error: ArenaArgError::BadValue(ArenaOption::Games), index: 1 })
    );
}

#[test]
fn apply_arg_sets_one_option() {
    let mut cli = parse_cli(&[]).unwrap();
    assert_eq!(apply_arg(&mut cli, b"--replay-stride", b"3"), Ok(()));
    assert_eq!(cli.replay_stride, 3);
    assert_eq!(apply_arg(&mut cli, b"--model", b"m.bin"), Ok(()));
    assert_eq!(cli.model, Some(b"m.bin".to_vec()));
    assert_eq!(apply_arg(&mut cli, b"--cpu-workers", b"0"), Err(ArenaArgError::ZeroValue(ArenaOption::CpuWorkers)));
}
