use std::cell::RefCell;

use ip_sniffer::coordinator::sweep;
use ip_sniffer::partition::worker_ports;
use ip_sniffer::report::OpenPortSet;
use ip_sniffer::worker::{scan, PROBE_TIMEOUT_MILLIS};

const OPEN: [u16; 9] = [1, 22, 80, 443, 8080, 8081, 32768, 65534, 65535];

fn is_open(port: u16) -> bool {
    OPEN.contains(&port)
}

#[test]
fn probe_timeout_is_one_second() {
    assert_eq!(PROBE_TIMEOUT_MILLIS, 1000);
}

#[test]
fn worker_keeps_its_open_ports_in_order() {
    assert_eq!(scan(is_open, 0, 1), OPEN.to_vec());
    // With four workers: 1, 8081 -> worker 0; 22, 65534 -> worker 1;
    // 443, 65535 -> worker 2; 80, 8080, 32768 -> worker 3.
    assert_eq!(scan(is_open, 0, 4), vec![1, 8081]);
    assert_eq!(scan(is_open, 1, 4), vec![22, 65534]);
    assert_eq!(scan(is_open, 2, 4), vec![443, 65535]);
    assert_eq!(scan(is_open, 3, 4), vec![80, 8080, 32768]);
}

#[test]
fn worker_without_workers_probes_nothing() {
    let calls = RefCell::new(0u32);
    let found = scan(
        |_port| {
            *calls.borrow_mut() += 1;
            true
        },
        0,
        0,
    );
    assert_eq!(found, Vec::<u16>::new());
    assert_eq!(*calls.borrow(), 0);
}

#[test]
fn worker_probes_each_of_its_ports_once_and_in_order() {
    let visited = RefCell::new(Vec::new());
    let found = scan(
        |port| {
            visited.borrow_mut().push(port);
            port % 2 == 0
        },
        2,
        1000,
    );
    assert_eq!(*visited.borrow(), worker_ports(2, 1000));
    let even: Vec<u16> = worker_ports(2, 1000).into_iter().filter(|p| p % 2 == 0).collect();
    assert_eq!(found, even);
}

#[test]
fn findings_stream_out_of_the_probe() {
    let sent = RefCell::new(Vec::new());
    let found = scan(
        |port| {
            let open = is_open(port);
            if open {
                sent.borrow_mut().push(port);
            }
            open
        },
        3,
        4,
    );
    assert_eq!(*sent.borrow(), found);
}

#[test]
fn sweep_reports_the_open_ports() {
    let report = sweep(is_open, 4);
    assert_eq!(report.ports(), &OPEN.to_vec());
    assert_eq!(report.len(), 9);
}

#[test]
fn sweep_result_does_not_depend_on_worker_count() {
    for workers in [1u16, 4, 16, 100, 65535] {
        let report = sweep(is_open, workers);
        assert_eq!(report.ports(), &OPEN.to_vec(), "workers = {}", workers);
    }
}

#[test]
fn sweep_probes_every_port_once() {
    for workers in [1u16, 4, 100] {
        let times = RefCell::new(vec![0u32; 65536]);
        let report = sweep(
            |port| {
                times.borrow_mut()[port as usize] += 1;
                false
            },
            workers,
        );
        assert_eq!(report.len(), 0);
        let times = times.borrow();
        assert_eq!(times[0], 0);
        assert!(times[1..].iter().all(|&t| t == 1));
    }
}

#[test]
fn sweep_without_workers_is_empty() {
    let report = sweep(|_port| true, 0);
    assert_eq!(report.len(), 0);
    assert_eq!(report.ports(), &Vec::<u16>::new());
}

#[test]
fn sweep_of_a_target_with_every_port_open() {
    let report = sweep(|_port| true, 16);
    assert_eq!(report.len(), 65535);
    assert!(report.ports().iter().enumerate().all(|(k, p)| *p as usize == k + 1));
}

/// Gathers the findings of all workers in the order that `turn` gives: the
/// findings of a worker stay in their own order, the workers take turns.
fn interleaved(workers: u16, reverse: bool) -> Vec<u16> {
    let mut queues: Vec<std::collections::VecDeque<u16>> =
        (0..workers).map(|i| scan(is_open, i, workers).into()).collect();
    if reverse {
        queues.reverse();
    }
    let mut received = Vec::new();
    loop {
        let mut any = false;
        for queue in queues.iter_mut() {
            if let Some(port) = queue.pop_front() {
                received.push(port);
                any = true;
            }
        }
        if !any {
            return received;
        }
    }
}

#[test]
fn report_does_not_depend_on_interleaving() {
    for workers in [1u16, 4, 16, 100] {
        for reverse in [false, true] {
            let received = interleaved(workers, reverse);
            assert_eq!(received.len(), OPEN.len());
            let report = OpenPortSet::collect(&received);
            assert_eq!(report.ports(), &OPEN.to_vec());
        }
    }
}
