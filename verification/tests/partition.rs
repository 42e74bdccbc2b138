use ip_sniffer::partition::{first_port, next_port, worker_ports, MAX_PORTS};

#[test]
fn range_ends_at_65535() {
    assert_eq!(MAX_PORTS, 65535);
}

#[test]
fn first_ports() {
    assert_eq!(first_port(0), Some(1));
    assert_eq!(first_port(3), Some(4));
    assert_eq!(first_port(65534), Some(65535));
    assert_eq!(first_port(65535), None);
}

#[test]
fn next_ports() {
    assert_eq!(next_port(1, 4), Some(5));
    assert_eq!(next_port(65531, 4), Some(65535));
    assert_eq!(next_port(65532, 4), None);
    assert_eq!(next_port(65534, 1), Some(65535));
    assert_eq!(next_port(65535, 1), None);
    assert_eq!(next_port(1, 65535), None);
    assert_eq!(next_port(1, 65534), Some(65535));
    assert_eq!(next_port(65535, 65535), None);
    assert_eq!(next_port(7, 0), Some(7));
}

#[test]
fn single_worker_takes_every_port() {
    let ports = worker_ports(0, 1);
    assert_eq!(ports.len(), 65535);
    assert_eq!(ports[0], 1);
    assert_eq!(ports[65534], 65535);
    assert!(ports.iter().enumerate().all(|(k, p)| *p as usize == k + 1));
}

#[test]
fn four_workers_stride_by_four() {
    assert_eq!(&worker_ports(0, 4)[..4], &[1, 5, 9, 13]);
    assert_eq!(&worker_ports(1, 4)[..4], &[2, 6, 10, 14]);
    assert_eq!(&worker_ports(2, 4)[..4], &[3, 7, 11, 15]);
    assert_eq!(&worker_ports(3, 4)[..4], &[4, 8, 12, 16]);
    // 65535 = 4 * 16383 + 3: the last worker has one port fewer.
    assert_eq!(worker_ports(0, 4).len(), 16384);
    assert_eq!(worker_ports(1, 4).len(), 16384);
    assert_eq!(worker_ports(2, 4).len(), 16384);
    assert_eq!(worker_ports(3, 4).len(), 16383);
    assert_eq!(*worker_ports(0, 4).last().unwrap(), 65533);
    assert_eq!(*worker_ports(1, 4).last().unwrap(), 65534);
    assert_eq!(*worker_ports(2, 4).last().unwrap(), 65535);
    assert_eq!(*worker_ports(3, 4).last().unwrap(), 65532);
}

#[test]
fn last_port_of_the_range_is_assigned() {
    // The stride goes on for as long as the next port is in range, the
    // highest port included.
    assert_eq!(*worker_ports(0, 1).last().unwrap(), 65535);
    assert_eq!(*worker_ports(4, 5).last().unwrap(), 65535);
    assert_eq!(worker_ports(0, 65534), vec![1, 65535]);
}

#[test]
fn as_many_workers_as_ports() {
    assert_eq!(worker_ports(0, 65535), vec![1]);
    assert_eq!(worker_ports(100, 65535), vec![101]);
    assert_eq!(worker_ports(65534, 65535), vec![65535]);
}

#[test]
fn no_workers_no_ports() {
    assert_eq!(worker_ports(0, 0), Vec::<u16>::new());
    assert_eq!(worker_ports(9, 0), Vec::<u16>::new());
}

#[test]
fn index_past_the_range_has_no_ports() {
    assert_eq!(worker_ports(65535, 1), Vec::<u16>::new());
}

fn assert_exact_cover(workers: u16) {
    let mut times = vec![0u32; 65536];
    for index in 0..workers {
        let ports = worker_ports(index, workers);
        assert!(ports.windows(2).all(|w| w[0] < w[1]));
        assert!(ports.windows(2).all(|w| w[1] - w[0] == workers));
        for port in ports {
            times[port as usize] += 1;
        }
    }
    assert_eq!(times[0], 0);
    assert!(times[1..].iter().all(|&t| t == 1), "workers = {}", workers);
}

#[test]
fn partition_covers_every_port_once() {
    for workers in
        [1u16, 2, 3, 4, 5, 7, 16, 100, 255, 256, 1000, 4096, 32767, 32768, 65534, 65535]
    {
        assert_exact_cover(workers);
    }
}

#[test]
fn stepping_agrees_with_the_listing() {
    for (index, workers) in [(0u16, 1u16), (2, 4), (99, 100), (15, 16), (6, 7)] {
        let mut walked = Vec::new();
        let mut cursor = first_port(index);
        while let Some(port) = cursor {
            walked.push(port);
            cursor = next_port(port, workers);
        }
        assert_eq!(walked, worker_ports(index, workers));
    }
}

#[test]
fn share_sizes_follow_the_closed_form() {
    for workers in [1u16, 3, 4, 16, 100, 1000, 65535] {
        for index in [0u16, 1, 2, workers / 2, workers - 1] {
            if index >= workers {
                continue;
            }
            let ports = worker_ports(index, workers);
            let expected = (65535 - (index as usize + 1)) / workers as usize + 1;
            assert_eq!(ports.len(), expected, "worker {} of {}", index, workers);
            for (k, port) in ports.iter().enumerate() {
                assert_eq!(*port as usize, index as usize + 1 + k * workers as usize);
            }
        }
    }
}

#[test]
fn loads_differ_by_at_most_one() {
    for workers in [2u16, 3, 7, 100, 4096] {
        let first = worker_ports(0, workers).len();
        let mut previous = first;
        for index in 1..workers {
            let load = worker_ports(index, workers).len();
            assert!(load == previous || load + 1 == previous);
            assert!(load + 1 >= first);
            previous = load;
        }
    }
}
