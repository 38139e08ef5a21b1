use iconforge::rss::rss_from_status;

const STATUS: &str = "Name:\ticons\nVmPeak:\t  99999 kB\nVmRSS:\t   1234 kB\nThreads:\t1\n";

#[test]
fn current_rss_is_reported_on_supported_platforms() {
    let rss = rss_from_status(STATUS).expect("the line is there");
    assert!(rss > 0, "a live process always has resident pages");
    assert_eq!(rss, 1234 * 1024);
}

#[test]
fn a_status_without_the_line_says_nothing() {
    assert_eq!(rss_from_status(""), None);
    assert_eq!(rss_from_status("Name:\ticons\n VmRSS: 1 kB\n"), None);
    assert_eq!(rss_from_status("VmRSS:\n"), None);
    assert_eq!(rss_from_status("VmRSS: x kB\n"), None);
    assert_eq!(rss_from_status("VmRSS: x kB\nVmRSS: 1 kB\n"), None, "the first line decides");
    assert_eq!(rss_from_status("VmRSS: 5"), Some(5 * 1024));
}
