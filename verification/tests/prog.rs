use yci::obj::{Cmd, CmdArg, CtxNs, CtxRef};
use yci::prog::{
    format_error, ir_arg, ir_command, ir_format, ir_input, ir_load, IRArg, IRErr, IRErrType,
    Location,
};

static TEST_SIMPLE: &str = "# first line
# second line
1:ld $a echo 2
# third line
2: 'asd'


4: 'asd'
# third line

5: 'echo' 'b' '3'
# fourth line

6:'ld' $a 'echo' '2'
7:'ld' $a 'echo' '2'
";

static TEST_ALGO: &str = "\
ep: push 01
01: list_create $users 02
02: db_user_list $users 03
03: list_length $users $cnt 04
04: set $i 0 05
05: icmp $i '<' $cnt $check 06
06: if $check 07 10
07: list_get $users $i user_id 08
08: db_user_activate $user_id 09
09: iadd $i 1 05
10: usr_op_x 11
11: http_rep 200 OK $req_handle
50: http_load_handler $req_handle $srvr_queue 51
51: $srvr_queue
";

static TEST_PAR_REF: &str = "\
ep: push 01 a
ep: $a.b 01 a
01: set $ag '1' 02
02: set asdasd $g asdasdasd $a.b asd
";

static TEST_PAR_REF_DISTINCT: &str = "\
ep: push 01 a
e2: $a.b 01 a
01: set $ag '1' 02
02: set asdasd $g asdasdasd $a.b asd
";

static TEST_INCORRECT: &str = "\
# incorrect program x
ep: push 01
01: nopp 02
02:
";

fn curr(name: &str) -> CmdArg {
    CmdArg::Ref(CtxRef(CtxNs::Curr, name.to_string()))
}

fn konst(v: &str) -> CmdArg {
    CmdArg::Const(v.to_string())
}

#[test]
fn prog_test_microcode_one() {
    assert_eq!(
        Ok(vec![
            Cmd::create(
                "1".to_string(),
                konst("ld"),
                vec![curr("a"), konst("echo"), konst("2")],
            ),
            Cmd::create("2".to_string(), konst("asd"), vec![]),
            Cmd::create("4".to_string(), konst("asd"), vec![]),
            Cmd::create("5".to_string(), konst("echo"), vec![konst("b"), konst("3")]),
            Cmd::create(
                "6".to_string(),
                konst("ld"),
                vec![curr("a"), konst("echo"), konst("2")],
            ),
            Cmd::create(
                "7".to_string(),
                konst("ld"),
                vec![curr("a"), konst("echo"), konst("2")],
            ),
        ]),
        ir_load(TEST_SIMPLE)
    );
}

#[test]
fn prog_test_microcode_algo() {
    assert_eq!(
        Ok(vec![
            Cmd::create("ep".to_string(), konst("push"), vec![konst("01")]),
            Cmd::create(
                "01".to_string(),
                konst("list_create"),
                vec![curr("users"), konst("02")],
            ),
            Cmd::create(
                "02".to_string(),
                konst("db_user_list"),
                vec![curr("users"), konst("03")],
            ),
            Cmd::create(
                "03".to_string(),
                konst("list_length"),
                vec![curr("users"), curr("cnt"), konst("04")],
            ),
            Cmd::create(
                "04".to_string(),
                konst("set"),
                vec![curr("i"), konst("0"), konst("05")],
            ),
            Cmd::create(
                "05".to_string(),
                konst("icmp"),
                vec![curr("i"), konst("<"), curr("cnt"), curr("check"), konst("06")],
            ),
            Cmd::create(
                "06".to_string(),
                konst("if"),
                vec![curr("check"), konst("07"), konst("10")],
            ),
            Cmd::create(
                "07".to_string(),
                konst("list_get"),
                vec![curr("users"), curr("i"), konst("user_id"), konst("08")],
            ),
            Cmd::create(
                "08".to_string(),
                konst("db_user_activate"),
                vec![curr("user_id"), konst("09")],
            ),
            Cmd::create(
                "09".to_string(),
                konst("iadd"),
                vec![curr("i"), konst("1"), konst("05")],
            ),
            Cmd::create("10".to_string(), konst("usr_op_x"), vec![konst("11")]),
            Cmd::create(
                "11".to_string(),
                konst("http_rep"),
                vec![konst("200"), konst("OK"), curr("req_handle")],
            ),
            Cmd::create(
                "50".to_string(),
                konst("http_load_handler"),
                vec![curr("req_handle"), curr("srvr_queue"), konst("51")],
            ),
            Cmd::create(
                "51".to_string(),
                CmdArg::Ref(CtxRef(CtxNs::Curr, "srvr_queue".to_string())),
                vec![],
            ),
        ]),
        ir_load(TEST_ALGO)
    );
}

#[test]
fn test_xxx() {
    let r = ir_arg(&ir_input("$asd.zxd "), 0);
    assert_eq!(r, Some((IRArg::XRef("asd".to_string(), "zxd".to_string()), 8)));
}

#[test]
fn test_parent_ref() {
    // the program repeats the `ep` label; a loader must refuse it, at the
    // second occurrence
    assert_eq!(
        Err(IRErr {
            location: Location { offset: 14, line: 2 },
            code: IRErrType::DuplicateLabel
        }),
        ir_load(TEST_PAR_REF)
    );
}

#[test]
fn parent_ref_distinct_labels() {
    assert_eq!(
        Ok(vec![
            Cmd::create(
                "ep".to_string(),
                konst("push"),
                vec![konst("01"), konst("a")],
            ),
            Cmd::create(
                "e2".to_string(),
                CmdArg::Ref(CtxRef(CtxNs::Ref("a".to_string()), "b".to_string())),
                vec![konst("01"), konst("a")],
            ),
            Cmd::create(
                "01".to_string(),
                konst("set"),
                vec![curr("ag"), konst("1"), konst("02")],
            ),
            Cmd::create(
                "02".to_string(),
                konst("set"),
                vec![
                    konst("asdasd"),
                    curr("g"),
                    konst("asdasdasd"),
                    CmdArg::Ref(CtxRef(CtxNs::Ref("a".to_string()), "b".to_string())),
                    konst("asd"),
                ],
            ),
        ]),
        ir_load(TEST_PAR_REF_DISTINCT)
    );
}

#[test]
fn test_ir_loader() {
    assert_eq!(
        Err(IRErr {
            location: Location { offset: 46, line: 4 },
            code: IRErrType::OpcodeMissing
        }),
        ir_load(TEST_INCORRECT)
    );
}

#[test]
fn microcode_test_microcode_one() {
    let s = ir_input("abcdef\n");
    assert_eq!(ir_arg(&s, 0), Some((IRArg::Const("abcdef".to_string()), 6)));

    let c = ir_input("1:ld $a echo 2\r\n");
    let (label, args, end) = ir_command(&c, 0).unwrap();
    assert_eq!(label, "1".to_string());
    assert_eq!(args.len(), 4);
    assert_eq!(end, 16);

    let c2 = ir_input("3: 'echo' 'b' '3'\n");
    let (label2, args2, _end2) = ir_command(&c2, 0).unwrap();
    assert_eq!(label2, "3".to_string());
    assert_eq!(
        args2,
        vec![
            IRArg::Const("echo".to_string()),
            IRArg::Const("b".to_string()),
            IRArg::Const("3".to_string()),
        ]
    );

    assert!(ir_load(TEST_SIMPLE).is_ok());
}

#[test]
fn microcode_test_microcode_algo() {
    let loaded = ir_load(TEST_ALGO).unwrap();
    assert_eq!(loaded.len(), 14);
}

#[test]
fn additional_data_is_an_error() {
    let r = ir_load("ep: push 01\n???\n");
    assert_eq!(
        r,
        Err(IRErr {
            location: Location { offset: 12, line: 2 },
            code: IRErrType::AdditionalData
        })
    );
}

#[test]
fn last_command_may_omit_newline() {
    let r = ir_load("ep: push 01").unwrap();
    assert_eq!(
        r,
        vec![Cmd::create("ep".to_string(), konst("push"), vec![konst("01")])]
    );
}

#[test]
fn format_load_round_trip() {
    let cmds = ir_load(TEST_ALGO).unwrap();
    let text = ir_format(&cmds);
    let reloaded = ir_load(text.as_str()).unwrap();
    assert_eq!(reloaded, cmds);

    let cmds2 = ir_load(TEST_PAR_REF_DISTINCT).unwrap();
    let text2 = ir_format(&cmds2);
    assert_eq!(ir_load(text2.as_str()).unwrap(), cmds2);
}

#[test]
fn error_rendering_points_at_the_line() {
    let err = ir_load(TEST_INCORRECT).unwrap_err();
    let text = format_error(TEST_INCORRECT, &err);
    assert_eq!(
        text,
        "line 4: a command needs at least an opcode\n02:\n^ here".to_string()
    );

    let err2 = ir_load(TEST_PAR_REF).unwrap_err();
    let text2 = format_error(TEST_PAR_REF, &err2);
    assert_eq!(
        text2,
        "line 2: this label was already used\nep: $a.b 01 a\n^ here".to_string()
    );
}
