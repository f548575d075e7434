use systrument::strace::parser::{StraceParseError, parse_line};
use systrument::strace::{Event, SyscallEvent};
use systrument::time::{Duration, Timestamp};

fn parse_strace_line(line: &str) -> Result<systrument::strace::Line, StraceParseError> {
    parse_line(line.as_bytes())
}

fn syscall_event(event: Event) -> SyscallEvent {
    match event {
        Event::Syscall(event) => event,
        other => panic!("expected syscall event, got {:?}", other),
    }
}

fn parse_strace_line_syscall(line: &str) -> SyscallEvent {
    let strace = parse_strace_line(line).unwrap();
    syscall_event(strace.event)
}

#[test]
fn test_strace_parse_line_basic() {
    let strace =
        parse_strace_line("2391133 1757048541.498563 brk(NULL)     = 0x555589aac000 <0.000007>")
            .unwrap();
    assert_eq!(strace.pid, 2391133);
    assert_eq!(strace.timestamp, Timestamp::new(1757048541, 498563000));
    let syscall = syscall_event(strace.event);
    assert_eq!(syscall.name, b"brk".to_vec());
    assert_eq!(syscall.args, b"NULL".to_vec());
    assert_eq!(syscall.result, b"0x555589aac000".to_vec());
    assert_eq!(syscall.duration, Duration::new(0, 7000));

    let strace = parse_strace_line(
        "1234 1757048541 syscall_0xbad() = -1 ENOSYS (Function not implemented) <123>",
    )
    .unwrap();
    assert_eq!(strace.pid, 1234);
    assert_eq!(strace.timestamp, Timestamp::new(1757048541, 0));
    let syscall = syscall_event(strace.event);
    assert_eq!(syscall.name, b"syscall_0xbad".to_vec());
    assert_eq!(syscall.args, b"".to_vec());
    assert_eq!(syscall.result, b"-1 ENOSYS (Function not implemented)".to_vec());
    assert_eq!(syscall.duration, Duration::new(123, 0));

    let strace = parse_strace_line("37755 1757467412.646253 +++ killed by SIGTERM +++").unwrap();
    assert_eq!(strace.pid, 37755);
    assert_eq!(strace.timestamp, Timestamp::new(1757467412, 646253000));
    let Event::KilledBy { signal } = strace.event else {
        panic!("expected killed-by event, got {:?}", strace.event);
    };
    assert_eq!(signal, b"SIGTERM".to_vec());

    let strace = parse_strace_line("37755 1757467412.646253 +++ killed by SIGTERM +++").unwrap();
    assert_eq!(strace.pid, 37755);
    assert_eq!(strace.timestamp, Timestamp::new(1757467412, 646253000));
    let Event::KilledBy { signal } = strace.event else {
        panic!("expected killed-by event, got {:?}", strace.event);
    };
    assert_eq!(signal, b"SIGTERM".to_vec());

    let strace = parse_strace_line("37755 1757467412.646087 --- SIGTERM {si_signo=SIGTERM, si_code=SI_USER, si_pid=37799, si_uid=1000} ---").unwrap();
    assert_eq!(strace.pid, 37755);
    assert_eq!(strace.timestamp, Timestamp::new(1757467412, 646087000));
    let Event::Signal { signal } = strace.event else {
        panic!("expected signal event, got {:?}", strace.event);
    };
    assert_eq!(
        signal,
        b"SIGTERM {si_signo=SIGTERM, si_code=SI_USER, si_pid=37799, si_uid=1000}".to_vec()
    );
}

#[test]
fn test_strace_parse_line_examples() {
    let syscall = parse_strace_line_syscall(
        "2386219 1757048486.908740 fstat(3</dev/urandom<char 1:9>>, {st_dev=makedev(0, 0x6), st_ino=9, st_mode=S_IFCHR|0666, st_nlink=1, st_uid=0, st_gid=0, st_blksize=4096, st_blocks=0, st_rdev=makedev(0x1, 0x9), st_atime=1755889791 /* 2025-08-22T12:09:51.972352920-0700 */, st_atime_nsec=972352920, st_mtime=1755889791 /* 2025-08-22T12:09:51.972352920-0700 */, st_mtime_nsec=972352920, st_ctime=1755889791 /* 2025-08-22T12:09:51.972352920-0700 */, st_ctime_nsec=972352920}) = 0 <0.000008>",
    );
    assert_eq!(syscall.name, b"fstat".to_vec());
    assert_eq!(
        syscall.args,
        b"3</dev/urandom<char 1:9>>, {st_dev=makedev(0, 0x6), st_ino=9, st_mode=S_IFCHR|0666, st_nlink=1, st_uid=0, st_gid=0, st_blksize=4096, st_blocks=0, st_rdev=makedev(0x1, 0x9), st_atime=1755889791 /* 2025-08-22T12:09:51.972352920-0700 */, st_atime_nsec=972352920, st_mtime=1755889791 /* 2025-08-22T12:09:51.972352920-0700 */, st_mtime_nsec=972352920, st_ctime=1755889791 /* 2025-08-22T12:09:51.972352920-0700 */, st_ctime_nsec=972352920}".to_vec()
    );
    assert_eq!(syscall.result, b"0".to_vec());

    let syscall = parse_strace_line_syscall("2386273 1757048575.815138 close(15</var/home/kyle/.local/share/brioche/brioche.db-shm>(deleted)) = 0 <0.000083>");
    assert_eq!(syscall.name, b"close".to_vec());
    assert_eq!(
        syscall.args,
        b"15</var/home/kyle/.local/share/brioche/brioche.db-shm>(deleted)".to_vec()
    );
    assert_eq!(syscall.result, b"0".to_vec());

    let syscall = parse_strace_line_syscall(
        "2386236 1757048490.393433 futex(0x7f299461a648, FUTEX_WAIT_PRIVATE, 1, NULL) = ? ERESTARTSYS (To be restarted if SA_RESTART is set) <85.383775>",
    );
    assert_eq!(syscall.name, b"futex".to_vec());
    assert_eq!(syscall.args, b"0x7f299461a648, FUTEX_WAIT_PRIVATE, 1, NULL".to_vec());
    assert_eq!(
        syscall.result,
        b"? ERESTARTSYS (To be restarted if SA_RESTART is set)".to_vec()
    );

    let syscall = parse_strace_line_syscall(
        "2386276 1757048489.047729 clone(child_stack=0x7f2934be37d0, flags=CLONE_NEWNS|CLONE_NEWUSER|CLONE_NEWNET|SIGCHLD) = 2386283 <0.001704>",
    );
    assert_eq!(syscall.name, b"clone".to_vec());
    assert_eq!(
        syscall.args,
        b"child_stack=0x7f2934be37d0, flags=CLONE_NEWNS|CLONE_NEWUSER|CLONE_NEWNET|SIGCHLD"
            .to_vec()
    );
    assert_eq!(syscall.result, b"2386283".to_vec());

    let syscall = parse_strace_line_syscall(r#"2386272 1757048488.670037 connect(16<UNIX-STREAM:[167063691]>, {sa_family=AF_UNIX, sun_path="/run/systemd/resolve/io.systemd.Resolve"}, 42) = 0 <0.000020>"#);
    assert_eq!(syscall.name, b"connect".to_vec());
    assert_eq!(
        syscall.args,
        br#"16<UNIX-STREAM:[167063691]>, {sa_family=AF_UNIX, sun_path="/run/systemd/resolve/io.systemd.Resolve"}, 42"#.to_vec()
    );
    assert_eq!(syscall.result, b"0".to_vec());

    let syscall = parse_strace_line_syscall(r#"2386272 1757048488.670128 sendto(16<UNIX-STREAM:[167063691->167059833]>, "{\"method\":\"io.systemd.Resolve.ResolveHostname\",\"parameters\":{\"name\":\"cache.brioche.dev\",\"flags\":0}}\0", 100, MSG_DONTWAIT|MSG_NOSIGNAL, NULL, 0) = 100 <0.000010>"#);
    assert_eq!(syscall.name, b"sendto".to_vec());
    assert_eq!(
        syscall.args,
        br#"16<UNIX-STREAM:[167063691->167059833]>, "{\"method\":\"io.systemd.Resolve.ResolveHostname\",\"parameters\":{\"name\":\"cache.brioche.dev\",\"flags\":0}}\0", 100, MSG_DONTWAIT|MSG_NOSIGNAL, NULL, 0"#.to_vec()
    );
    assert_eq!(syscall.result, b"100".to_vec());

    let syscall = parse_strace_line_syscall("2386272 1757048488.670247 ppoll([{fd=16<UNIX-STREAM:[167063691->167059833]>, events=POLLIN}], 1, {tv_sec=119, tv_nsec=999966000}, NULL, 8) = 1 ([{fd=16, revents=POLLIN}], left {tv_sec=119, tv_nsec=999799867}) <0.000174>");
    assert_eq!(syscall.name, b"ppoll".to_vec());
    assert_eq!(
        syscall.args,
        b"[{fd=16<UNIX-STREAM:[167063691->167059833]>, events=POLLIN}], 1, {tv_sec=119, tv_nsec=999966000}, NULL, 8".to_vec()
    );
    assert_eq!(
        syscall.result,
        b"1 ([{fd=16, revents=POLLIN}], left {tv_sec=119, tv_nsec=999799867})".to_vec()
    );

    let syscall = parse_strace_line_syscall(r#"2386272 1757048488.670449 recvfrom(16<UNIX-STREAM:[167063691->167059833]>, "{\"parameters\":{\"addresses\":[{\"ifindex\":2,\"family\":2,\"address\":[127,10,10,1]},{\"ifindex\":2,\"family\":2,\"address\":[127,10,10,1]},{\"ifindex\":2,\"family\":2,\"address\":[127,10,10,1]},{\"ifindex\":2,\"family\":2,\"address\":[127,10,10,1]},{\"ifindex\":2,\"family\":2,\"address\":[127,10,10,1]},{\"ifindex\":2,\"family\":2,\"address\":[127,10,100,1]},{\"ifindex\":2,\"family\":2,\"address\":[127,10,10,1]},{\"ifindex\":2,\"family\":10,\"address\":[32,1,219,8,1,10,0,0,0,0,0,0,100,10,10,1]},{\"ifindex\":2,\"family\":10,\"address\":[32,1,219,8,1,10,0,0,0,0,0,0,104,21,64,1]},{\"ifindex\":2,\"family\":10,\"address\":[32,1,219,8,1,10,0,0,0,0,0,0,100,10,10,1]},{\"ifindex\":2,\"family\":10,\"address\":[32,1,219,8,1,10,0,0,0,0,0,0,100,10,10,1]},{\"ifindex\":2,\"family\":10,\"address\":[32,1,219,8,1,10,0,0,0,0,0,0,100,10,100,1]},{\"ifindex\":2,\"family\":10,\"address\":[32,1,219,8,1,10,0,0,0,0,0,0,100,10,10,1]},{\"ifindex\":2,\"family\":10,\"address\":[32,1,219,8,1,10,0,0,0,0,0,0,100,10,10,1]}],\"name\":\"cache.brioche.dev\",\"flags\":1048577}}\0", 131080, MSG_DONTWAIT, NULL, NULL) = 965 <0.000009>"#);
    assert_eq!(syscall.name, b"recvfrom".to_vec());
    assert_eq!(
        syscall.args,
        br#"16<UNIX-STREAM:[167063691->167059833]>, "{\"parameters\":{\"addresses\":[{\"ifindex\":2,\"family\":2,\"address\":[127,10,10,1]},{\"ifindex\":2,\"family\":2,\"address\":[127,10,10,1]},{\"ifindex\":2,\"family\":2,\"address\":[127,10,10,1]},{\"ifindex\":2,\"family\":2,\"address\":[127,10,10,1]},{\"ifindex\":2,\"family\":2,\"address\":[127,10,10,1]},{\"ifindex\":2,\"family\":2,\"address\":[127,10,100,1]},{\"ifindex\":2,\"family\":2,\"address\":[127,10,10,1]},{\"ifindex\":2,\"family\":10,\"address\":[32,1,219,8,1,10,0,0,0,0,0,0,100,10,10,1]},{\"ifindex\":2,\"family\":10,\"address\":[32,1,219,8,1,10,0,0,0,0,0,0,104,21,64,1]},{\"ifindex\":2,\"family\":10,\"address\":[32,1,219,8,1,10,0,0,0,0,0,0,100,10,10,1]},{\"ifindex\":2,\"family\":10,\"address\":[32,1,219,8,1,10,0,0,0,0,0,0,100,10,10,1]},{\"ifindex\":2,\"family\":10,\"address\":[32,1,219,8,1,10,0,0,0,0,0,0,100,10,100,1]},{\"ifindex\":2,\"family\":10,\"address\":[32,1,219,8,1,10,0,0,0,0,0,0,100,10,10,1]},{\"ifindex\":2,\"family\":10,\"address\":[32,1,219,8,1,10,0,0,0,0,0,0,100,10,10,1]}],\"name\":\"cache.brioche.dev\",\"flags\":1048577}}\0", 131080, MSG_DONTWAIT, NULL, NULL"#.to_vec()
    );
    assert_eq!(syscall.result, b"965".to_vec());

    let syscall = parse_strace_line_syscall("2386272 1757048488.670902 sendto(16<NETLINK:[ROUTE:2386219]>, [{nlmsg_len=20, nlmsg_type=RTM_GETADDR, nlmsg_flags=NLM_F_REQUEST|NLM_F_DUMP, nlmsg_seq=1757048488, nlmsg_pid=0}, {ifa_family=AF_UNSPEC, ...}], 20, 0, {sa_family=AF_NETLINK, nl_pid=0, nl_groups=00000000}, 12) = 20 <0.000021>");
    assert_eq!(syscall.name, b"sendto".to_vec());
    assert_eq!(
        syscall.args,
        b"16<NETLINK:[ROUTE:2386219]>, [{nlmsg_len=20, nlmsg_type=RTM_GETADDR, nlmsg_flags=NLM_F_REQUEST|NLM_F_DUMP, nlmsg_seq=1757048488, nlmsg_pid=0}, {ifa_family=AF_UNSPEC, ...}], 20, 0, {sa_family=AF_NETLINK, nl_pid=0, nl_groups=00000000}, 12".to_vec()
    );
    assert_eq!(syscall.result, b"20".to_vec());

    let syscall = parse_strace_line_syscall(r#"2386272 1757048488.671755 getsockname(16<UDP:[192.168.1.203:56186->127.10.10.1:0]>, {sa_family=AF_INET, sin_port=htons(56186), sin_addr=inet_addr("192.168.1.203")}, [28 => 16]) = 0 <0.000012>"#);
    assert_eq!(syscall.name, b"getsockname".to_vec());
    assert_eq!(
        syscall.args,
        br#"16<UDP:[192.168.1.203:56186->127.10.10.1:0]>, {sa_family=AF_INET, sin_port=htons(56186), sin_addr=inet_addr("192.168.1.203")}, [28 => 16]"#.to_vec()
    );
    assert_eq!(syscall.result, b"0".to_vec());

    let syscall = parse_strace_line_syscall(r#"2386272 1757048488.672892 connect(16<UDPv6:[[2001:db8:1000:1000:1000:100:100:1000]:41629->[2001:db8:1000::1000:1000]:0]>, {sa_family=AF_UNSPEC, sa_data="\0\0\0\0\0\0\0\0\0\0\0\0\0\0"}, 16) = 0 <0.000011>"#);
    assert_eq!(syscall.name, b"connect".to_vec());
    assert_eq!(
        syscall.args,
        br#"16<UDPv6:[[2001:db8:1000:1000:1000:100:100:1000]:41629->[2001:db8:1000::1000:1000]:0]>, {sa_family=AF_UNSPEC, sa_data="\0\0\0\0\0\0\0\0\0\0\0\0\0\0"}, 16"#.to_vec()
    );
    assert_eq!(syscall.result, b"0".to_vec());
}
