use yci::daemon::{err_repr, Op, RValueLocal, ThreadError};
use yci::obj::{Ctx, XCmdArg, XCtxNs, XCtxRef};
use yci::table::Table;

fn create_context() -> Ctx {
    let mut values: Table<String, String> = Table::new();
    for (i, c) in "abcdef".chars().enumerate() {
        values.insert(c.to_string(), i.to_string());
    }
    Ctx::create(0.to_string(), values)
}

#[test]
fn context_lookup() {
    let ctx = create_context();
    assert_eq!(ctx.get(&"b".to_string()), Some("1".to_string()));
    assert_eq!(ctx.get(&"g".to_string()), None);
}

#[test]
fn context_set_overwrites() {
    let mut ctx = create_context();
    ctx.set("b".to_string(), "9".to_string());
    assert_eq!(ctx.get(&"b".to_string()), Some("9".to_string()));
    assert_eq!(ctx.get(&"a".to_string()), Some("0".to_string()));
}

#[test]
fn xcmdarg_value_and_ident() {
    let c = XCmdArg::Const("v".to_string());
    assert_eq!(c.value(), Some("v".to_string()));
    assert_eq!(c.ident(), None);

    let r = XCmdArg::Ref(XCtxRef(XCtxNs::Curr, "x".to_string()), None);
    assert_eq!(r.value(), None);
    assert_eq!(r.ident(), Some(XCtxRef(XCtxNs::Curr, "x".to_string())));
}

#[test]
fn xctxref_set_builds_a_context_write() {
    let r = XCtxRef(XCtxNs::Curr, "x".to_string());
    let op = r.set(RValueLocal::Const("1".to_string()));
    assert_eq!(
        op,
        Op::ContextSet(
            RValueLocal::Ref("$ctx".to_string()),
            RValueLocal::Const("x".to_string()),
            RValueLocal::Const("1".to_string()),
        )
    );

    let r2 = XCtxRef(XCtxNs::Ref("C9".to_string()), "y".to_string());
    let op2 = r2.set(RValueLocal::Ref("z".to_string()));
    assert_eq!(
        op2,
        Op::ContextSet(
            RValueLocal::Const("C9".to_string()),
            RValueLocal::Const("y".to_string()),
            RValueLocal::Ref("z".to_string()),
        )
    );
}

#[test]
fn error_text_has_a_stable_prefix() {
    let a = err_repr(&ThreadError::Fetch { id: "7".to_string() });
    let b = err_repr(&ThreadError::Fetch { id: "99".to_string() });
    assert!(!a.is_empty());
    assert!(a.starts_with("Fetch"));
    assert!(b.starts_with("Fetch"));
    assert_eq!(a, "Fetch { id: 7 }".to_string());
}
