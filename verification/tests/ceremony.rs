use unidpp_signatif::ceremony::{
    command, hex_decode, init, parse, read_group, report_share, report_signature, sign_with,
    Command,
};
use unidpp_signatif::threshold::MemberShare;

fn args(words: &[&str]) -> Vec<String> {
    words.iter().map(|w| w.to_string()).collect()
}

#[test]
fn arguments_are_read() {
    let o = parse(&args(&[
        "--threshold",
        "2",
        "--members",
        "+3",
        "--seed",
        "00ff",
        "--out",
        "dir",
        "--share",
        "a",
        "--share",
        "b",
    ]))
    .unwrap();
    assert_eq!(o.threshold, Some(2));
    assert_eq!(o.members, Some(3));
    assert_eq!(o.seed.as_deref(), Some("00ff"));
    assert_eq!(o.out.as_deref(), Some("dir"));
    assert_eq!(o.shares, vec!["a", "b"]);
    assert_eq!(o.group, None);
}

#[test]
fn bad_arguments_are_named() {
    let fault = |words: &[&str]| parse(&args(words)).unwrap_err();
    assert_eq!(fault(&["--threshold"]), "--threshold needs a value");
    assert_eq!(
        fault(&["--threshold", "two"]),
        "--threshold `two` is not a number"
    );
    assert_eq!(
        fault(&["--members", "99999999999999999999999"]),
        "--members `99999999999999999999999` is not a number"
    );
    assert_eq!(fault(&["--members", "+"]), "--members `+` is not a number");
    assert_eq!(fault(&["--members", ""]), "--members `` is not a number");
    assert_eq!(fault(&["--out", "x", "--help", "--bad"]), "");
    assert_eq!(fault(&["-h"]), "");
    assert_eq!(fault(&["--bad"]), "unknown argument `--bad`");
}

#[test]
fn commands_need_their_arguments() {
    let fault = |words: &[&str]| command(&args(words)).unwrap_err();
    assert_eq!(fault(&[]), "missing command");
    assert_eq!(fault(&["dance"]), "unknown command `dance`");
    assert_eq!(fault(&["dance", "--x"]), "unknown argument `--x`");
    assert_eq!(fault(&["init"]), "init needs --threshold");
    assert_eq!(
        fault(&["init", "--threshold", "1"]),
        "init needs --members"
    );
    assert_eq!(
        fault(&["init", "--threshold", "1", "--members", "1"]),
        "init needs --out (a directory)"
    );
    assert_eq!(
        fault(&[
            "init",
            "--threshold",
            "1",
            "--members",
            "1",
            "--out",
            "d",
            "--seed",
            "xyz"
        ]),
        "--seed `xyz` is not hex"
    );
    assert_eq!(fault(&["verify-share"]), "verify-share needs --group");
    assert_eq!(
        fault(&["verify-share", "--group", "g"]),
        "verify-share needs --share"
    );
    assert_eq!(fault(&["sign"]), "sign needs --group");
    assert_eq!(fault(&["sign", "--group", "g"]), "sign needs --message");
    assert_eq!(
        fault(&["sign", "--group", "g", "--message", "m"]),
        "sign needs at least one --share"
    );
    assert_eq!(fault(&["verify"]), "verify needs --group");
    assert_eq!(
        fault(&["verify", "--group", "g"]),
        "verify needs --signature"
    );
    assert_eq!(
        fault(&["verify", "--group", "g", "--signature", "s"]),
        "verify needs --message"
    );
    assert_eq!(
        command(&args(&[
            "init",
            "--threshold",
            "2",
            "--members",
            "3",
            "--out",
            "d",
            "--seed",
            "0a"
        ]))
        .unwrap(),
        Command::Init {
            threshold: 2,
            members: 3,
            directory: "d".into(),
            seed: Some(vec![10]),
        }
    );
}

#[test]
fn seeds_are_hexadecimal() {
    assert_eq!(hex_decode("00ffA0"), Some(vec![0, 255, 160]));
    assert_eq!(hex_decode(""), Some(vec![]));
    assert_eq!(hex_decode("+f"), Some(vec![15]));
    assert_eq!(hex_decode("0"), None);
    assert_eq!(hex_decode("0g"), None);
    assert_eq!(hex_decode("f+"), None);
}

#[test]
fn a_ceremony_runs_from_its_files() {
    let made = init(b"rehearsal", 2, 3, "out").unwrap();
    assert_eq!(made.files.len(), 4);
    assert_eq!(made.files[0].0, "out/group.json");
    assert_eq!(made.files[3].0, "out/member-3.json");
    assert!(made
        .report
        .starts_with("2-of-3 ceremony generated: out/group.json (public) + 3 member share files"));
    let group_text = &made.files[0].1;
    assert_eq!(
        report_share(group_text, &made.files[1].1).unwrap(),
        "member 1: share verifies against the group commitments"
    );
    let other = init(b"another", 2, 3, "out").unwrap();
    assert_eq!(
        report_share(group_text, &other.files[1].1).unwrap_err(),
        "member 1: share does NOT match the group commitments — a lying dealer or a corrupted share"
    );
    assert_eq!(
        read_group(group_text, 3).err().unwrap(),
        "a qualifying set is exactly 2 shares (3 given): fewer cannot sign, more are redundant"
    );
    let group = read_group(group_text, 2).unwrap();
    let shares = vec![
        MemberShare::from_json(&made.files[1].1).unwrap(),
        MemberShare::from_json(&made.files[3].1).unwrap(),
    ];
    let signed = sign_with(&group, &shares, b"statement", "sig.json").unwrap();
    assert_eq!(signed.report, "signed by [1, 3]: sig.json");
    assert_eq!(
        report_signature(group_text, &signed.text, b"statement").unwrap(),
        "group signature verifies: 2 signer(s) [1, 3], algorithm ed25519-threshold-schnorr/feldman"
    );
    assert_eq!(
        report_signature(group_text, &signed.text, b"other").unwrap_err(),
        "cryptographic error: group signature verification failed"
    );
    assert_eq!(
        init(b"s", 4, 3, "out").unwrap_err(),
        "generation: validation error: a 4-of-3 quorum is degenerate (need 1 <= M <= K)"
    );
}
