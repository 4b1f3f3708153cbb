use yci::daemon::{
    exec, interpolate, local_ctx, local_eip, local_nip, Op, OpErrReason, RValue, RValueLocal,
    State, Thread, ThreadError, ThreadState, WorkerErr, WorkerInfo, WorkerResult, DPU,
    DaemonWorker,
};
use yci::obj::{Cmd, CmdArg, Ctx, CtxNs, CtxRef, XCmd, XCmdArg, XCtxNs, XCtxRef};
use yci::prog::ir_load;
use yci::table::Table;

fn create_machine() {
    let mut dpu = DPU::default();
    let state = dpu.get_state_mut();
    state.insert_commands(&vec![
        Cmd::create("0".to_string(), CmdArg::Const("nop".to_string()), vec![]),
        Cmd::create(
            "1".to_string(),
            CmdArg::Const("ld".to_string()),
            vec![
                CmdArg::Const("addr".to_string()),
                CmdArg::Const("0".to_string()),
            ],
        ),
        Cmd::create(
            "2".to_string(),
            CmdArg::Const("jmp".to_string()),
            vec![CmdArg::Ref(CtxRef(CtxNs::Curr, "addr".to_string()))],
        ),
    ]);

    let state = dpu.get_state_mut();
    let ctx = Ctx::empty(state.create_id());
    let cid = ctx.id().clone();
    state.insert_context(ctx);

    let _thr = Thread::create(state.create_id(), "0".to_string(), Some(cid));
}

fn create_machine_err() {
    let mut dpu = DPU::default();
    let state = dpu.get_state_mut();
    state.insert_commands(&vec![
        Cmd::create(
            "0".to_string(),
            CmdArg::Ref(CtxRef(CtxNs::Curr, "nop".to_string())),
            vec![],
        ),
        Cmd::create(
            "1".to_string(),
            CmdArg::Const("ld".to_string()),
            vec![
                CmdArg::Ref(CtxRef(CtxNs::Curr, "addr".to_string())),
                CmdArg::Const("0".to_string()),
            ],
        ),
        Cmd::create(
            "2".to_string(),
            CmdArg::Const("jmp".to_string()),
            vec![CmdArg::Ref(CtxRef(CtxNs::Curr, "addr".to_string()))],
        ),
    ]);

    let state = dpu.get_state_mut();
    let ctx = Ctx::empty(state.create_id());
    let cid = ctx.id().clone();
    state.insert_context(ctx);

    let _thr = Thread::create(state.create_id(), "0".to_string(), Some(cid));
}

#[test]
fn test_machine() {
    // create_machine();
}

#[test]
fn test_machine_err() {
    create_machine_err();
}

fn nip_of(command: &XCmd) -> Result<String, WorkerErr> {
    match command.args.last() {
        Some(x) => match x.value() {
            Some(y) => Ok(y),
            None => Err(WorkerErr::Default(OpErrReason::InvalidArg(
                command.args.len() - 1,
            ))),
        },
        None => Err(WorkerErr::Default(OpErrReason::ContextRefInvalid {
            ident: "".to_string(),
        })),
    }
}

fn exec_cmd(command: &XCmd) -> WorkerResult {
    match command.opcode.as_str() {
        "push" => {
            let next_ip = nip_of(command)?;
            Ok(vec![
                Op::LocalSet(
                    "new_ctx".to_string(),
                    RValue::Extern(yci::daemon::RValueExtern::ContextCreate),
                ),
                Op::LocalSet(
                    local_ctx().to_string(),
                    RValue::Local(RValueLocal::Ref("new_ctx".to_string())),
                ),
                Op::LocalSet(
                    local_nip().to_string(),
                    RValue::Local(RValueLocal::Const(next_ip)),
                ),
            ])
        }
        "list_create" => {
            let var_name = command
                .args
                .first()
                .ok_or(WorkerErr::Default(OpErrReason::ContextRefInvalid {
                    ident: "".to_string(),
                }))
                .and_then(|a| {
                    a.ident()
                        .ok_or_else(|| WorkerErr::Default(OpErrReason::InvalidArg(0)))
                })?;
            let next_ip = nip_of(command)?;
            Ok(vec![
                var_name.set(RValueLocal::Const("".to_string())),
                Op::LocalSet(
                    local_nip().to_string(),
                    RValue::Local(RValueLocal::Const(next_ip)),
                ),
            ])
        }
        "list_length" => {
            let var_val = command
                .args
                .first()
                .ok_or(WorkerErr::Default(OpErrReason::ContextRefInvalid {
                    ident: "".to_string(),
                }))?
                .value()
                .ok_or(WorkerErr::Default(OpErrReason::InvalidArg(0)))?;
            let var_var = command
                .args
                .get(1)
                .ok_or(WorkerErr::Default(OpErrReason::ContextRefInvalid {
                    ident: "".to_string(),
                }))?
                .ident()
                .ok_or(WorkerErr::Default(OpErrReason::InvalidArg(0)))?;
            let cnt = var_val.split(',').count();
            let next_ip = nip_of(command)?;
            Ok(vec![
                var_var.set(RValueLocal::Const(cnt.to_string())),
                Op::LocalSet(
                    local_nip().to_string(),
                    RValue::Local(RValueLocal::Const(next_ip)),
                ),
            ])
        }
        "db_user_list" => {
            let var_name = command
                .args
                .first()
                .ok_or(WorkerErr::Default(OpErrReason::ContextRefInvalid {
                    ident: "".to_string(),
                }))?
                .ident()
                .ok_or(WorkerErr::Default(OpErrReason::InvalidArg(0)))?;
            let next_ip = nip_of(command)?;
            Ok(vec![
                var_name.set(RValueLocal::Const(
                    "foo@bar.com,zeta@beta.org,culinary@sky.net".to_string(),
                )),
                Op::LocalSet(
                    local_nip().to_string(),
                    RValue::Local(RValueLocal::Const(next_ip)),
                ),
            ])
        }
        "set" => {
            let mut iter = command.args.iter();
            let mut ret: Vec<Op> = Vec::new();
            let mut argidx = 0;
            loop {
                let a = iter
                    .next()
                    .ok_or(WorkerErr::Default(OpErrReason::InvalidArg(argidx)))?;
                if let Some(b) = iter.next() {
                    let a = a
                        .ident()
                        .ok_or(WorkerErr::Default(OpErrReason::InvalidArg(argidx)))?;
                    argidx += 1;
                    let b = b
                        .value()
                        .ok_or(WorkerErr::Default(OpErrReason::InvalidArg(argidx)))?;
                    ret.push(a.set(RValueLocal::Const(b)));
                } else {
                    let nip = a
                        .value()
                        .ok_or(WorkerErr::Default(OpErrReason::InvalidArg(argidx)))?;
                    ret.push(Op::LocalSet(
                        local_nip().to_string(),
                        RValue::Local(RValueLocal::Const(nip)),
                    ));
                    break;
                }
            }
            Ok(ret)
        }
        "icmp" => {
            let a = command.args[0]
                .value()
                .ok_or(WorkerErr::Default(OpErrReason::InvalidArg(0)))?
                .parse::<u128>()
                .map_err(|_| WorkerErr::Default(OpErrReason::InvalidArg(0)))?;
            let op = command.args[1]
                .value()
                .ok_or(WorkerErr::Default(OpErrReason::InvalidArg(1)))?;
            let b = command.args[2]
                .value()
                .ok_or(WorkerErr::Default(OpErrReason::InvalidArg(2)))?
                .parse::<u128>()
                .map_err(|_| WorkerErr::Default(OpErrReason::InvalidArg(2)))?;
            let ctxref = command.args[3]
                .ident()
                .ok_or(WorkerErr::Default(OpErrReason::InvalidArg(3)))?;
            let res = match op.as_str() {
                "<" => a < b,
                ">" => a > b,
                "=" => a == b,
                _ => return Err(WorkerErr::Default(OpErrReason::InvalidArg(1))),
            };
            let next_ip = nip_of(command)?;
            Ok(vec![
                ctxref.set(RValueLocal::Const(res.to_string())),
                Op::LocalSet(
                    local_nip().to_string(),
                    RValue::Local(RValueLocal::Const(next_ip)),
                ),
            ])
        }
        "if" => {
            let a = command.args[0]
                .value()
                .ok_or(WorkerErr::Default(OpErrReason::InvalidArg(0)))?
                .parse::<bool>()
                .map_err(|_| WorkerErr::Default(OpErrReason::InvalidArg(0)))?;
            let b = command.args[1]
                .value()
                .ok_or(WorkerErr::Default(OpErrReason::InvalidArg(1)))?;
            let c = command.args[2]
                .value()
                .ok_or(WorkerErr::Default(OpErrReason::InvalidArg(2)))?;
            Ok(vec![Op::LocalSet(
                local_nip().to_string(),
                RValue::Local(RValueLocal::Const(if a { b } else { c })),
            )])
        }
        "jmp" => Ok(vec![Op::LocalSet(
            local_nip().to_string(),
            RValue::Local(RValueLocal::Const("99".to_string())),
        )]),
        "jmp_with_handler" => Ok(vec![
            Op::LocalSet(
                local_eip().to_string(),
                RValue::Local(RValueLocal::Const("50".to_string())),
            ),
            Op::LocalSet(
                local_nip().to_string(),
                RValue::Local(RValueLocal::Const("99".to_string())),
            ),
        ]),
        "log_exc" => Err(WorkerErr::Default(OpErrReason::UnknownOp)),
        _ => Err(WorkerErr::Default(OpErrReason::UnknownOp)),
    }
}

const TEST_ALGO: &str = "\
ep: push 01
01: list_create $users 02
02: db_user_list $users 03
03: list_length $users $cnt 04
04: set $i 0 05
05: icmp $i '<' $cnt $check 06
06: if $check 07 10
07: list_get $users $i user_id 08
08: db_user_activate $user_id 09
09: iadd $i 1 05
10: usr_op_x 11
11: http_rep 200 OK $req_handle
50: http_load_handler $req_handle $srvr_queue 51
51: $srvr_queue
";

fn drive(dpu: &mut DPU, rounds: usize) {
    for _ in 0..rounds {
        let intents = dpu.process_assignments();
        for (wid, msg) in intents {
            if let DaemonWorker::JobAssigned(tid, sid, cid, cmd) = msg {
                let res = exec_cmd(&cmd);
                dpu.on_finished(&wid, &tid, sid, &cid, res);
            }
        }
    }
}

#[test]
fn test_worker_a() {
    let mut dpu = DPU::default();
    let ir = ir_load(TEST_ALGO).unwrap();
    dpu.get_state_mut().insert_commands(&ir);

    dpu.worker_add(
        &"1".to_string(),
        &WorkerInfo(
            None,
            vec![
                "push".to_string(),
                "list_create".to_string(),
                "list_length".to_string(),
                "db_user_list".to_string(),
                "set".to_string(),
                "icmp".to_string(),
                "if".to_string(),
            ],
        ),
    );

    let thread_id = dpu.job_add("ep".to_string(), None);

    drive(&mut dpu, 100);

    let thread = dpu.state.threads.get(&thread_id).unwrap();
    assert_eq!(
        thread.state,
        ThreadState::Queued(XCmd::create(
            "07".to_string(),
            "list_get".to_string(),
            vec![
                XCmdArg::Ref(
                    XCtxRef(XCtxNs::Curr, "users".to_string()),
                    Some("foo@bar.com,zeta@beta.org,culinary@sky.net".to_string())
                ),
                XCmdArg::Ref(XCtxRef(XCtxNs::Curr, "i".to_string()), Some("0".to_string())),
                XCmdArg::Const("user_id".to_string()),
                XCmdArg::Const("08".to_string()),
            ]
        )),
    );
}

#[test]
fn simple_push_and_set() {
    let mut dpu = DPU::default();
    let ir = ir_load("ep: push 01\n01: set $ag '1' 02\n02: set $b '2' 03\n").unwrap();
    dpu.get_state_mut().insert_commands(&ir);
    dpu.worker_add(
        &"w".to_string(),
        &WorkerInfo(None, vec!["push".to_string(), "set".to_string()]),
    );
    let tid = dpu.job_add("ep".to_string(), None);
    // two delivery rounds: the push, then the first set; the job for the
    // second set is then waiting in its queue
    drive(&mut dpu, 2);

    let thread = dpu.state.threads.get(&tid).unwrap();
    match &thread.state {
        ThreadState::Queued(xcmd) => {
            assert_eq!(xcmd.id, "02".to_string());
            assert_eq!(xcmd.opcode, "set".to_string());
        }
        other => panic!("unexpected state {:?}", other),
    }
    let ctx_id = thread.ctx.clone().unwrap();
    let ctx = dpu.state.contexts.get(&ctx_id).unwrap();
    assert_eq!(ctx.get(&"ag".to_string()), Some("1".to_string()));
}

#[test]
fn fetch_miss_without_handler() {
    let mut dpu = DPU::default();
    let ir = ir_load("ep: jmp 99\n").unwrap();
    dpu.get_state_mut().insert_commands(&ir);
    dpu.worker_add(&"w".to_string(), &WorkerInfo(None, vec!["jmp".to_string()]));
    let tid = dpu.job_add("ep".to_string(), None);
    drive(&mut dpu, 4);

    let thread = dpu.state.threads.get(&tid).unwrap();
    assert_eq!(
        thread.state,
        ThreadState::Exited(Err(ThreadError::Fetch { id: "99".to_string() })),
    );
}

#[test]
fn exception_unwinds_to_handler() {
    let mut dpu = DPU::default();
    let ir = ir_load("ep: jmp_with_handler 99\n50: log_exc $exc\n").unwrap();
    dpu.get_state_mut().insert_commands(&ir);
    // the worker serves only the jump; the handler's opcode has no worker,
    // so the thread stays queued on the handler command
    dpu.worker_add(
        &"w".to_string(),
        &WorkerInfo(None, vec!["jmp_with_handler".to_string()]),
    );
    let tid = dpu.job_add("ep".to_string(), None);
    drive(&mut dpu, 3);

    let thread = dpu.state.threads.get(&tid).unwrap();
    match &thread.state {
        ThreadState::Queued(xcmd) => {
            assert_eq!(xcmd.id, "50".to_string());
            match &xcmd.args[0] {
                XCmdArg::Ref(_, Some(exc)) => {
                    assert!(!exc.is_empty());
                    assert!(exc.starts_with("Fetch"));
                }
                other => panic!("exc not resolved: {:?}", other),
            }
        }
        other => panic!("unexpected state {:?}", other),
    }
    // the child context chains back to the failing frame
    let ctx_id = thread.ctx.clone().unwrap();
    let ctx = dpu.state.contexts.get(&ctx_id).unwrap();
    assert_eq!(ctx.get(&"^ip".to_string()), Some("99".to_string()));
    assert_eq!(ctx.get(&"^ctx".to_string()), Some("".to_string()));
    let exc = ctx.get(&"exc".to_string()).unwrap();
    assert!(exc.starts_with("Fetch"));
    assert_eq!(thread.eip, None);
}

#[test]
fn local_set_last_writer_wins() {
    let mut state = State::default();
    let mut thread = Thread::create("t".to_string(), "0".to_string(), None);
    let ops = vec![
        Op::LocalSet(
            local_nip().to_string(),
            RValue::Local(RValueLocal::Const("A".to_string())),
        ),
        Op::LocalSet(
            local_nip().to_string(),
            RValue::Local(RValueLocal::Const("B".to_string())),
        ),
    ];
    assert_eq!(exec(&mut thread, &mut state, &ops), Ok(()));
    assert_eq!(thread.ip, "B".to_string());
}

#[test]
fn commit_errors_name_the_op() {
    let mut state = State::default();
    let mut thread = Thread::create("t".to_string(), "0".to_string(), None);
    let ops = vec![
        Op::LocalSet(
            "x".to_string(),
            RValue::Local(RValueLocal::Const("1".to_string())),
        ),
        Op::ContextRemove(RValueLocal::Const("nothing".to_string())),
    ];
    let err = exec(&mut thread, &mut state, &ops).unwrap_err();
    assert_eq!(err.op_index, Some(1));
    assert_eq!(
        err.op_reason,
        OpErrReason::ContextDoesNotExist { id: "nothing".to_string() }
    );
    // a failed commit leaves the registers alone
    assert_eq!(thread.ip, "0".to_string());

    let mut thread2 = Thread::create("t2".to_string(), "0".to_string(), None);
    let ops2 = vec![Op::LocalSet(
        "y".to_string(),
        RValue::Local(RValueLocal::Ref("unbound".to_string())),
    )];
    let err2 = exec(&mut thread2, &mut state, &ops2).unwrap_err();
    assert_eq!(err2.op_index, Some(0));
    assert_eq!(
        err2.op_reason,
        OpErrReason::LocalRefInvalid { ident: "unbound".to_string() }
    );

    let mut thread3 = Thread::create("t3".to_string(), "0".to_string(), None);
    let ops3 = vec![Op::ThreadRemove(RValueLocal::Const("ghostly".to_string()))];
    let err3 = exec(&mut thread3, &mut state, &ops3).unwrap_err();
    assert_eq!(
        err3.op_reason,
        OpErrReason::ThreadDoesNotExist { id: "ghostly".to_string() }
    );
}

#[test]
fn cross_context_reference() {
    let mut state = State::default();
    let mut other_vals: Table<String, String> = Table::new();
    other_vals.insert("b".to_string(), "42".to_string());
    let other = Ctx::create("OTHER".to_string(), other_vals);
    state.insert_context(other);

    let mut cur_vals: Table<String, String> = Table::new();
    cur_vals.insert("a".to_string(), "OTHER".to_string());
    let cur = Ctx::create("CUR".to_string(), cur_vals);

    let cmd = Cmd::create(
        "0".to_string(),
        CmdArg::Const("op".to_string()),
        vec![CmdArg::Ref(CtxRef(CtxNs::Ref("a".to_string()), "b".to_string()))],
    );

    // present and live: the reference resolves through the current context
    let x = interpolate(&state, &cmd, Some(&cur)).unwrap();
    assert_eq!(
        x.args[0],
        XCmdArg::Ref(
            XCtxRef(XCtxNs::Ref("OTHER".to_string()), "b".to_string()),
            Some("42".to_string())
        ),
    );

    // the naming variable is missing from the current context
    let bare = Ctx::empty("BARE".to_string());
    let e = interpolate(&state, &cmd, Some(&bare)).unwrap_err();
    assert_eq!(
        e,
        yci::obj::InterpolationError::Ref(CtxRef(CtxNs::Curr, "a".to_string())),
    );

    // the named context is dangling
    let mut dang_vals: Table<String, String> = Table::new();
    dang_vals.insert("a".to_string(), "GONE".to_string());
    let dang = Ctx::create("DANG".to_string(), dang_vals);
    let e2 = interpolate(&state, &cmd, Some(&dang)).unwrap_err();
    assert_eq!(e2, yci::obj::InterpolationError::CtxMiss("GONE".to_string()));

    // an absent opcode value fails the whole interpolation
    let cmd2 = Cmd::create(
        "1".to_string(),
        CmdArg::Ref(CtxRef(CtxNs::Curr, "nothing".to_string())),
        vec![],
    );
    let e3 = interpolate(&state, &cmd2, Some(&bare)).unwrap_err();
    assert_eq!(e3, yci::obj::InterpolationError::CmdNull);

    // a current-context reference with no current context
    let e4 = interpolate(&state, &cmd, None).unwrap_err();
    assert_eq!(e4, yci::obj::InterpolationError::CtxNull);
}

#[test]
fn stale_step_is_discarded() {
    let mut dpu = DPU::default();
    let ir = ir_load("ep: push 01\n01: set $a '1' 02\n").unwrap();
    dpu.get_state_mut().insert_commands(&ir);
    dpu.worker_add(
        &"w".to_string(),
        &WorkerInfo(None, vec!["push".to_string(), "set".to_string()]),
    );
    let tid = dpu.job_add("ep".to_string(), None);
    // a result fenced on a step the thread has moved past is ignored
    let accepted = dpu.on_finished(&"w".to_string(), &tid, 999, &"push".to_string(), Ok(vec![]));
    assert!(!accepted);
    let unknown = dpu.on_finished(
        &"w".to_string(),
        &"no-such-thread".to_string(),
        1,
        &"push".to_string(),
        Ok(vec![]),
    );
    assert!(!unknown);
}
