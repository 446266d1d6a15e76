use ddshow::args::{communication_mode, CommunicationMode, Output};
use ddshow::program_stats::{
    aggregate_worker_stats, combine_events, dataflow_addrs, Channel, DifferentialEvent,
    DifferentialRecord, TimelyRecord,
};
use ddshow::ui::{ChannelKind, Lifespan, NodeKind, ProgramStats};

fn channel(id: u64) -> Channel {
    Channel {
        id,
        kind: ChannelKind::Normal,
        src_addr: vec![0, 1],
        src_port: 0,
        dst_addr: vec![0, 2],
        dst_port: 0,
    }
}

struct Inputs {
    timely: Vec<TimelyRecord>,
    channels: Vec<(u64, Channel)>,
    subgraphs: Vec<(u64, Vec<u64>)>,
    operators: Vec<(u64, Vec<u64>)>,
}

/// Two workers, each with one dataflow holding three operators, two
/// channels, and ten events between times 100 and 500.
fn two_workers() -> Inputs {
    let mut timely = Vec::new();
    let mut channels = Vec::new();
    let mut subgraphs = Vec::new();
    let mut operators = Vec::new();
    for worker in 0..2u64 {
        for i in 0..10u64 {
            timely.push(TimelyRecord { event_time: 100 + i * 400 / 9, worker });
        }
        channels.push((worker, channel(0)));
        channels.push((worker, channel(1)));
        subgraphs.push((worker, vec![0]));
        operators.push((worker, vec![0]));
        operators.push((worker, vec![0, 1]));
        operators.push((worker, vec![0, 2]));
        operators.push((worker, vec![0, 3]));
    }
    Inputs { timely, channels, subgraphs, operators }
}

fn expected_program() -> ProgramStats {
    ProgramStats {
        workers: 2,
        dataflows: 2,
        operators: 6,
        subgraphs: 2,
        channels: 4,
        arrangements: 0,
        events: 20,
        runtime: 400,
    }
}

#[test]
fn program_stats_of_two_workers() {
    let inputs = two_workers();
    let differential: Vec<DifferentialRecord> = Vec::new();
    let (program, workers) = aggregate_worker_stats(
        &inputs.timely,
        Some(&differential),
        &inputs.channels,
        &inputs.subgraphs,
        &inputs.operators,
    );
    assert_eq!(program, Some(expected_program()));
    assert_eq!(workers.len(), 2);
    for (i, stats) in workers.iter().enumerate() {
        assert_eq!(stats.id, i as u64);
        assert_eq!(stats.dataflows, 1);
        assert_eq!(stats.operators, 3);
        assert_eq!(stats.subgraphs, 1);
        assert_eq!(stats.channels, 2);
        assert_eq!(stats.arrangements, 0);
        assert_eq!(stats.events, 10);
        assert_eq!(stats.runtime, 400);
        assert_eq!(stats.dataflow_addrs, vec![vec![0]]);
    }
}

#[test]
fn program_stats_without_differential_log() {
    let inputs = two_workers();
    let (program, workers) = aggregate_worker_stats(
        &inputs.timely,
        None,
        &inputs.channels,
        &inputs.subgraphs,
        &inputs.operators,
    );
    assert_eq!(program, Some(expected_program()));
    assert!(workers.iter().all(|w| w.arrangements == 0));
}

#[test]
fn arrangements_are_counted_once_per_operator() {
    let inputs = two_workers();
    let differential = vec![
        DifferentialRecord {
            event_time: 200,
            worker: 1,
            event: DifferentialEvent::TraceShare { operator: 7, diff: 1 },
        },
        DifferentialRecord {
            event_time: 300,
            worker: 1,
            event: DifferentialEvent::TraceShare { operator: 7, diff: 2 },
        },
        DifferentialRecord {
            event_time: 350,
            worker: 1,
            event: DifferentialEvent::TraceShare { operator: 8, diff: -1 },
        },
        DifferentialRecord {
            event_time: 600,
            worker: 1,
            event: DifferentialEvent::Batch { operator: 9, length: 4 },
        },
    ];
    let (program, workers) = aggregate_worker_stats(
        &inputs.timely,
        Some(&differential),
        &inputs.channels,
        &inputs.subgraphs,
        &inputs.operators,
    );
    let program = program.unwrap();
    assert_eq!(program.arrangements, 1);
    assert_eq!(program.events, 24);
    assert_eq!(program.runtime, 500);
    assert_eq!(workers[0].arrangements, 0);
    assert_eq!(workers[1].arrangements, 1);
    assert_eq!(workers[1].events, 14);
}

#[test]
fn a_worker_without_events_is_not_reported() {
    let mut inputs = two_workers();
    inputs.timely.retain(|e| e.worker == 0);
    let (program, workers) = aggregate_worker_stats(
        &inputs.timely,
        None,
        &inputs.channels,
        &inputs.subgraphs,
        &inputs.operators,
    );
    assert_eq!(workers.len(), 1);
    assert_eq!(workers[0].id, 0);
    assert_eq!(program.unwrap().workers, 1);
}

#[test]
fn nothing_is_reported_without_channels() {
    let inputs = two_workers();
    let (program, workers) =
        aggregate_worker_stats(&inputs.timely, None, &Vec::new(), &inputs.subgraphs, &inputs.operators);
    assert_eq!(program, None);
    assert!(workers.is_empty());
}

#[test]
fn runtime_spans_the_earliest_and_latest_event() {
    let mut inputs = two_workers();
    inputs.timely.push(TimelyRecord { event_time: 50, worker: 0 });
    inputs.timely.push(TimelyRecord { event_time: 900, worker: 0 });
    let (program, _) = aggregate_worker_stats(
        &inputs.timely,
        None,
        &inputs.channels,
        &inputs.subgraphs,
        &inputs.operators,
    );
    assert_eq!(program.unwrap().runtime, 850);
}

#[test]
fn dataflow_addresses_are_sorted() {
    let operators = vec![
        (0, vec![5]),
        (0, vec![2]),
        (1, vec![1]),
        (0, vec![2, 1]),
        (0, vec![]),
        (0, vec![5]),
    ];
    let subgraphs = vec![(0, vec![5]), (0, vec![2]), (1, vec![1]), (0, vec![2, 1]), (0, vec![])];
    assert_eq!(dataflow_addrs(&operators, &subgraphs, 0), vec![vec![], vec![2], vec![5]]);
}

#[test]
fn events_of_both_layers_are_combined() {
    let timely = vec![TimelyRecord { event_time: 3, worker: 1 }];
    let differential = vec![DifferentialRecord {
        event_time: 4,
        worker: 2,
        event: DifferentialEvent::Drop { operator: 0 },
    }];
    assert_eq!(combine_events(&timely, Some(&differential)), vec![(1, 3), (2, 4)]);
    assert_eq!(combine_events(&timely, None), vec![(1, 3)]);
}

#[test]
fn output_names_in_any_case() {
    assert_eq!(Output::parse("stdout"), Ok(Output::Stdout));
    assert_eq!(Output::parse("StdErr"), Ok(Output::Stderr));
    assert_eq!(Output::parse("QUIET"), Ok(Output::Quiet));
    assert_eq!("Quiet".parse::<Output>(), Ok(Output::Quiet));
    assert_eq!(
        Output::parse("Loud"),
        Err("invalid output type: Loud".to_string())
    );
    assert_eq!(Output::from_lowercase("quiet", "QUIET"), Ok(Output::Quiet));
}

#[test]
fn lifespans_and_defaults() {
    let life = Lifespan::new(10, 25);
    assert_eq!(life.duration(), 15);
    assert_eq!(NodeKind::default(), NodeKind::Operator);
    assert_eq!(ChannelKind::default(), ChannelKind::Normal);
}

#[test]
fn one_worker_runs_on_the_current_thread() {
    assert_eq!(communication_mode(1), CommunicationMode::Thread);
    assert_eq!(communication_mode(4), CommunicationMode::Process(4));
}

#[test]
fn input_order_does_not_change_the_statistics() {
    let inputs = two_workers();
    let (program, mut workers) = aggregate_worker_stats(
        &inputs.timely,
        None,
        &inputs.channels,
        &inputs.subgraphs,
        &inputs.operators,
    );
    let mut timely = inputs.timely.clone();
    timely.reverse();
    let mut channels = inputs.channels.clone();
    channels.reverse();
    let mut operators = inputs.operators.clone();
    operators.reverse();
    let (program2, mut workers2) =
        aggregate_worker_stats(&timely, None, &channels, &inputs.subgraphs, &operators);
    workers.sort();
    workers2.sort();
    assert_eq!(program, program2);
    assert_eq!(workers, workers2);
}

#[test]
fn statistics_grow_with_more_records() {
    let mut inputs = two_workers();
    let (_, before) = aggregate_worker_stats(
        &inputs.timely,
        None,
        &inputs.channels,
        &inputs.subgraphs,
        &inputs.operators,
    );
    inputs.timely.push(TimelyRecord { event_time: 700, worker: 1 });
    inputs.channels.push((1, channel(2)));
    inputs.operators.push((1, vec![1]));
    inputs.subgraphs.push((1, vec![1]));
    let (_, after) = aggregate_worker_stats(
        &inputs.timely,
        None,
        &inputs.channels,
        &inputs.subgraphs,
        &inputs.operators,
    );
    assert_eq!(before[1].id, after[1].id);
    assert!(before[1].events < after[1].events);
    assert!(before[1].channels < after[1].channels);
    assert!(before[1].dataflows < after[1].dataflows);
    assert!(before[1].runtime < after[1].runtime);
    assert_eq!(after[1].dataflow_addrs, vec![vec![0], vec![1]]);
}
