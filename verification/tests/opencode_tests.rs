use mimimi::opencode::{
    append_prompt_body, discover_opencode_port, first_matching_instance, matching_instance, opencode_url, pid_list_from_pgrep,
    pids_from_tasklist, ports_from_lsof, ports_from_netstat, working_directory_from_body,
};

#[test]
fn pgrep_ids_are_joined() {
    assert_eq!(pid_list_from_pgrep(true, b"12\n\n345\n").unwrap(), "12,345");
    assert_eq!(pid_list_from_pgrep(true, b"7").unwrap(), "7");
    assert!(pid_list_from_pgrep(true, b"\n\n").is_none());
    assert!(pid_list_from_pgrep(false, b"12\n").is_none());
    assert!(pid_list_from_pgrep(true, b"\xff\n").is_none());
}

#[test]
fn lsof_ports() {
    let out = b"COMMAND PID USER FD TYPE DEVICE SIZE/OFF NODE NAME\n\
node 12345 user 10u IPv4 0x1 0t0 TCP 127.0.0.1:3456 (LISTEN)\n\
node 12345 user 11u IPv6 0x2 0t0 TCP [::1]:4567 (LISTEN)\n\
node 1 user 12u IPv4 0x3 0t0 TCP *:99999 (LISTEN)\n";
    assert_eq!(ports_from_lsof(true, out).unwrap(), vec![3456, 4567]);
    assert!(ports_from_lsof(false, out).is_none());
    assert!(ports_from_lsof(true, b"\xfe").is_none());
}

#[test]
fn tasklist_and_netstat() {
    let tasks = b"\"opencode.exe\",\"12345\",\"Console\",\"1\",\"12,345 K\"\r\n\
\"other.exe\",\"1\",\"Console\",\"1\",\"1 K\"\r\n\
\"opencode.exe\",\"678\",\"Console\",\"1\",\"1 K\"\r\n";
    let pids = pids_from_tasklist(true, tasks).unwrap();
    assert_eq!(pids, vec![12345, 678]);
    assert!(pids_from_tasklist(true, b"INFO: No tasks\r\n").is_none());
    let net = b"  Proto  Local Address  Foreign Address  State  PID\r\n\
  TCP    127.0.0.1:3456    0.0.0.0:0    LISTENING    12345\r\n\
  tcp    [::1]:4000    [::]:0    ABHOREN    678\r\n\
  TCP    127.0.0.1:5000    10.0.0.1:80    ESTABLISHED    12345\r\n\
  TCP    127.0.0.1:6000    0.0.0.0:0    LISTENING    999\r\n\
  UDP    0.0.0.0:7000    *:*    12345\r\n";
    assert_eq!(ports_from_netstat(true, net, &pids).unwrap(), vec![3456, 4000]);
    assert!(ports_from_netstat(false, net, &pids).is_none());
}

#[test]
fn port_choice() {
    assert_eq!(discover_opencode_port(&vec![], Some(0)), None);
    assert_eq!(discover_opencode_port(&vec![5], None), Some(5));
    assert_eq!(discover_opencode_port(&vec![5, 6, 7], Some(2)), Some(7));
    assert_eq!(discover_opencode_port(&vec![5, 6, 7], None), Some(5));
    assert_eq!(discover_opencode_port(&vec![5, 6, 7], Some(9)), Some(5));
}

#[test]
fn urls_and_bodies() {
    assert_eq!(opencode_url(4096, "/tui/clear-prompt"), "http://127.0.0.1:4096/tui/clear-prompt");
    assert_eq!(append_prompt_body("say \"hi\"\n"), "{\"text\":\"say \\\"hi\\\"\\n\"}");
    assert_eq!(append_prompt_body(""), "{\"text\":\"\"}");
    assert_eq!(append_prompt_body("a\\b\tc\u{1}\u{1f}\u{8}\u{c}\r"), "{\"text\":\"a\\\\b\\tc\\u0001\\u001f\\b\\f\\r\"}");
    assert_eq!(append_prompt_body("é/\u{7f}"), "{\"text\":\"é/\u{7f}\"}");
}

#[test]
fn working_directory() {
    assert_eq!(working_directory_from_body("{\"worktree\":\"/w\",\"directory\":\"/d\"}"), "/d");
    // The member is taken as it is; only the comparison trims it.
    assert_eq!(working_directory_from_body("{\"worktree\":\"/w\",\"directory\":\" /home/u/p \"}"), " /home/u/p ");
    assert_eq!(working_directory_from_body(" /home/x\n"), "/home/x");
    assert_eq!(working_directory_from_body("  /plain/dir \n"), "/plain/dir");
    assert_eq!(working_directory_from_body("{\"directory\":5}"), "{\"directory\":5}");
}

#[test]
fn instance_matching_trims_the_report() {
    let reported = vec![None, Some("/other".to_string()), Some(" /home/u/p \n".to_string()), Some("/home/u/p".to_string())];
    assert_eq!(matching_instance(&reported, "/home/u/p"), Some(2));
    assert_eq!(matching_instance(&reported, "/nowhere"), None);
    assert_eq!(matching_instance(&vec![], "/home/u/p"), None);
}

#[test]
fn first_matching_instance_takes_the_first_flag() {
    assert_eq!(first_matching_instance(&vec![false, true, true]), Some(1));
    assert_eq!(first_matching_instance(&vec![false, false]), None);
    assert_eq!(first_matching_instance(&vec![]), None);
    assert_eq!(first_matching_instance(&vec![true]), Some(0));
}
