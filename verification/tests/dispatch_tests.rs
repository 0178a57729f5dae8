use raytracer::dispatch::Delivery;
use raytracer::dispatch::Dispatcher;
use raytracer::job::RenderCommand;

fn line(line_num: i32) -> RenderCommand<u32> {
    RenderCommand::Line { line_num, context: 1000 }
}

fn only_worker(deliveries: &Vec<Delivery<u32>>) -> usize {
    assert_eq!(deliveries.len(), 1);
    deliveries[0].worker
}

#[test]
fn new_dispatcher_knows_its_pool() {
    let dispatcher = Dispatcher::new(4);
    assert_eq!(dispatcher.num_workers(), 4);
}

#[test]
fn first_job_goes_to_the_first_worker() {
    let mut dispatcher = Dispatcher::new(3);
    let deliveries = dispatcher.submit_job(line(10));
    assert_eq!(only_worker(&deliveries), 0);
}

#[test]
fn jobs_go_round_and_wrap() {
    let mut dispatcher = Dispatcher::new(3);
    let mut workers: Vec<usize> = Vec::new();
    for row in 0..7 {
        let deliveries = dispatcher.submit_job(line(row));
        workers.push(only_worker(&deliveries));
    }
    assert_eq!(workers, vec![0, 1, 2, 0, 1, 2, 0]);
}

#[test]
fn a_job_keeps_its_row_and_context() {
    let mut dispatcher = Dispatcher::new(2);
    dispatcher.submit_job(line(5));
    let deliveries = dispatcher.submit_job(RenderCommand::Line { line_num: 42, context: 7u32 });
    assert_eq!(deliveries.len(), 1);
    assert_eq!(deliveries[0].worker, 1);
    match &deliveries[0].command {
        RenderCommand::Line { line_num, context } => {
            assert_eq!(*line_num, 42);
            assert_eq!(*context, 7);
        }
        RenderCommand::Stop => panic!("a scanline job became a stop"),
    }
}

#[test]
fn twelve_jobs_on_four_workers_are_three_each() {
    let mut dispatcher = Dispatcher::new(4);
    let mut counts: Vec<usize> = vec![0, 0, 0, 0];
    for row in 0..12 {
        let deliveries = dispatcher.submit_job(line(row));
        counts[only_worker(&deliveries)] += 1;
    }
    assert_eq!(counts, vec![3, 3, 3, 3]);
}

#[test]
fn a_multiple_of_the_pool_is_even_from_any_cursor() {
    let mut dispatcher = Dispatcher::new(5);
    dispatcher.submit_job(line(0));
    dispatcher.submit_job(line(1));
    let mut counts: Vec<usize> = vec![0, 0, 0, 0, 0];
    for row in 0..20 {
        let deliveries = dispatcher.submit_job(line(row));
        counts[only_worker(&deliveries)] += 1;
    }
    assert_eq!(counts, vec![4, 4, 4, 4, 4]);
}

#[test]
fn stop_reaches_every_worker_once_in_order() {
    let mut dispatcher = Dispatcher::new(4);
    let deliveries: Vec<Delivery<u32>> = dispatcher.submit_job(RenderCommand::Stop);
    assert_eq!(deliveries.len(), 4);
    for (index, delivery) in deliveries.iter().enumerate() {
        assert_eq!(delivery.worker, index);
        assert!(matches!(delivery.command, RenderCommand::Stop));
    }
}

#[test]
fn stop_leaves_the_cursor_alone() {
    let mut dispatcher = Dispatcher::new(3);
    assert_eq!(only_worker(&dispatcher.submit_job(line(0))), 0);
    let stops: Vec<Delivery<u32>> = dispatcher.submit_job(RenderCommand::Stop);
    assert_eq!(stops.len(), 3);
    assert_eq!(only_worker(&dispatcher.submit_job(line(1))), 1);
    assert_eq!(dispatcher.num_workers(), 3);
}

#[test]
fn a_single_worker_gets_everything() {
    let mut dispatcher = Dispatcher::new(1);
    for row in 0..5 {
        assert_eq!(only_worker(&dispatcher.submit_job(line(row))), 0);
    }
    let stops: Vec<Delivery<u32>> = dispatcher.submit_job(RenderCommand::Stop);
    assert_eq!(stops.len(), 1);
    assert_eq!(stops[0].worker, 0);
}
