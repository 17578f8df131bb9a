use rhytm::supervisor::{spawn_plan, usize_to_decimal, LevelFilter, Options, HTTP_CHUNK_SIZE};

fn options(threads: usize) -> Options {
    Options {
        verbosity: LevelFilter::Info,
        threads,
        link_batch_size: 5,
        tmp_dir: "/tmp/rhytm".to_string(),
        download_dir: "/data/radio".to_string(),
        logs_dir_relative: "/logs/".to_string(),
        parse_regex_str: "(watch\\?v=)([a-zA-Z0-9]+)".to_string(),
        yt_dlp_output_template: "%(title)s - [%(id)s]".to_string(),
        html_path: "liked.html".to_string(),
    }
}

#[test]
fn decimal_notation_is_exact() {
    assert_eq!(usize_to_decimal(0), "0");
    assert_eq!(usize_to_decimal(7), "7");
    assert_eq!(usize_to_decimal(10), "10");
    assert_eq!(usize_to_decimal(12345), "12345");
    assert_eq!(usize_to_decimal(1000), "1000");
}

#[test]
fn plan_gives_each_worker_a_distinct_identity_and_directory() {
    let plan = spawn_plan(&options(3));
    assert_eq!(plan.len(), 3);
    for (i, w) in plan.iter().enumerate() {
        assert_eq!(w.thr_id, i);
        assert_eq!(w.socket_path, "/tmp/rhytm/master.sock");
        assert_eq!(w.work_dir, format!("/tmp/rhytm/{}", i));
        assert_eq!(w.logs_dir, "/data/radio/logs/");
        assert_eq!(w.download_dir, "/data/radio");
        assert_eq!(w.tmp_dir, "/tmp/rhytm");
        assert_eq!(w.output_template, "%(title)s - [%(id)s]");
        assert_eq!(w.downloader.http_chunk_size, HTTP_CHUNK_SIZE);
    }
}

#[test]
fn zero_threads_give_an_empty_plan() {
    assert!(spawn_plan(&options(0)).is_empty());
}
