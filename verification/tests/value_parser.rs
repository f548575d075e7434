use systrument::strace::parser::{StraceParseError, parse_whole_value};
use systrument::strace::{BinaryOperator, Field, Value};

fn parse_value(s: &str) -> Result<Value, StraceParseError> {
    parse_whole_value(s.as_bytes())
}

fn string(s: impl AsRef<[u8]>) -> Value {
    Value::String(s.as_ref().to_vec())
}

fn truncated_string(s: impl AsRef<[u8]>) -> Value {
    Value::TruncatedString(s.as_ref().to_vec())
}

fn expr(expr: &str) -> Value {
    Value::Expression(expr.as_bytes().to_vec())
}

fn binary_ops(first: Value, rest: impl IntoIterator<Item = (BinaryOperator, Value)>) -> Value {
    Value::BinaryOperations {
        first: Box::new(first),
        operators_and_operands: rest.into_iter().collect(),
    }
}

fn fn_call(function: &str, args: impl IntoIterator<Item = Field>) -> Value {
    Value::FunctionCall {
        function: function.as_bytes().to_vec(),
        args: args.into_iter().collect(),
    }
}

fn array(items: impl IntoIterator<Item = Value>) -> Value {
    Value::Array(items.into_iter().collect())
}

fn sparse_array(items: impl IntoIterator<Item = (Value, Value)>) -> Value {
    Value::SparseArray(items.into_iter().collect())
}

fn struct_value(fields: impl IntoIterator<Item = Field>) -> Value {
    Value::Struct(fields.into_iter().collect())
}

fn not_bitset(items: impl IntoIterator<Item = Value>) -> Value {
    Value::NotBitset(items.into_iter().collect())
}

fn unnamed(value: Value) -> Field {
    Field { name: None, value }
}

fn named(name: &str, value: Value) -> Field {
    Field { name: Some(name.as_bytes().to_vec()), value }
}

fn annotated(value: Value, annotation: impl AsRef<[u8]>) -> Value {
    Value::Annotated {
        value: Box::new(value),
        annotation: annotation.as_ref().to_vec(),
        deleted: false,
    }
}

fn annotated_deleted(value: Value, annotation: impl AsRef<[u8]>) -> Value {
    Value::Annotated {
        value: Box::new(value),
        annotation: annotation.as_ref().to_vec(),
        deleted: true,
    }
}

fn commented(value: Value, comment: &str) -> Value {
    Value::Commented { value: Box::new(value), comment: comment.as_bytes().to_vec() }
}

fn changed(from: Value, to: Value) -> Value {
    Value::Changed { from: Box::new(from), to: Box::new(to) }
}

fn alternative(left: Value, right: Value) -> Value {
    Value::Alternative { left: Box::new(left), right: Box::new(right) }
}

#[test]
fn test_parse_string() {
    assert_eq!(parse_value(r#""""#).unwrap(), string(""));
    assert_eq!(parse_value(r#""foo""#).unwrap(), string("foo"));
    assert_eq!(parse_value(r#""foo\"bar\"""#).unwrap(), string(r#"foo"bar""#));
    assert_eq!(parse_value(r#""foo\nbar""#).unwrap(), string("foo\nbar"));
    assert_eq!(parse_value(r#""foo 🦀 bar""#).unwrap(), string("foo 🦀 bar"));
    assert_eq!(parse_value(r#""foo \xFf bar""#).unwrap(), string(b"foo \xff bar"));
    assert_eq!(parse_value(r#""foo \0 bar""#).unwrap(), string(b"foo \x00 bar"));
    assert_eq!(parse_value(r#""foo \10 bar""#).unwrap(), string(b"foo \x08 bar"));
    assert_eq!(parse_value(r#""foo \177 bar""#).unwrap(), string(b"foo \x7F bar"));
    assert_eq!(parse_value(r#""foo \178 bar""#).unwrap(), string(b"foo \x0F8 bar"));
    assert_eq!(parse_value(r#""foo \377""#).unwrap(), string(b"foo \xFF"));
    assert_eq!(parse_value(r#""foo \37""#).unwrap(), string(b"foo \x1F"));
    assert_eq!(parse_value(r#""foo \3""#).unwrap(), string(b"foo \x03"));
}

#[test]
fn test_parse_truncated_string() {
    assert_eq!(parse_value(r#"""..."#).unwrap(), truncated_string(""));
    assert_eq!(parse_value(r#""foo"..."#).unwrap(), truncated_string("foo"));
    assert_eq!(parse_value(r#""foo\"bar\""..."#).unwrap(), truncated_string(r#"foo"bar""#));
    assert_eq!(parse_value(r#""foo\nbar"..."#).unwrap(), truncated_string("foo\nbar"));
    assert_eq!(parse_value(r#""foo 🦀 bar"..."#).unwrap(), truncated_string("foo 🦀 bar"));
    assert_eq!(parse_value(r#""foo \xFf bar"..."#).unwrap(), truncated_string(b"foo \xff bar"));
    assert_eq!(parse_value(r#""foo \0 bar"..."#).unwrap(), truncated_string(b"foo \x00 bar"));
    assert_eq!(parse_value(r#""foo \10 bar"..."#).unwrap(), truncated_string(b"foo \x08 bar"));
    assert_eq!(parse_value(r#""foo \177 bar"..."#).unwrap(), truncated_string(b"foo \x7F bar"));
    assert_eq!(parse_value(r#""foo \178 bar"..."#).unwrap(), truncated_string(b"foo \x0F8 bar"));
    assert_eq!(parse_value(r#""foo \377"..."#).unwrap(), truncated_string(b"foo \xFF"));
    assert_eq!(parse_value(r#""foo \37"..."#).unwrap(), truncated_string(b"foo \x1F"));
    assert_eq!(parse_value(r#""foo \3"..."#).unwrap(), truncated_string(b"foo \x03"));
}

#[test]
fn test_parse_basic_expr() {
    assert_eq!(parse_value("500").unwrap(), expr("500"));
    assert_eq!(parse_value("+0.5").unwrap(), expr("+0.5"));
    assert_eq!(parse_value("0x5*02/4").unwrap(), expr("0x5*02/4"));
    assert_eq!(parse_value("BLAH_BLAH_BLAH5").unwrap(), expr("BLAH_BLAH_BLAH5"));
}

#[test]
fn test_parse_expr_with_operators() {
    assert_eq!(
        parse_value("[{WIFEXITED(s) && WEXITSTATUS(s) == 0}]").unwrap(),
        array([struct_value([unnamed(binary_ops(
            fn_call("WIFEXITED", [unnamed(expr("s"))]),
            [
                (BinaryOperator::And, fn_call("WEXITSTATUS", [unnamed(expr("s"))])),
                (BinaryOperator::Equal, expr("0"))
            ]
        ))])]),
    );
}

#[test]
fn test_parse_function_call() {
    assert_eq!(parse_value("foo()").unwrap(), fn_call("foo", []));
    assert_eq!(parse_value("foo(1)").unwrap(), fn_call("foo", [unnamed(expr("1"))]));
    assert_eq!(
        parse_value("foo(1, 2)").unwrap(),
        fn_call("foo", [unnamed(expr("1")), unnamed(expr("2"))])
    );
    assert_eq!(
        parse_value("foo(1, 2, 3)").unwrap(),
        fn_call("foo", [unnamed(expr("1")), unnamed(expr("2")), unnamed(expr("3"))])
    );
    assert_eq!(
        parse_value("foo(param1 = 1, param2 = 2)").unwrap(),
        fn_call("foo", [named("param1", expr("1")), named("param2", expr("2"))])
    );
    assert_eq!(
        parse_value("foo(fizz(), buzz = buzz(a = 1, b = 2), bar(baz, qux = qux()))").unwrap(),
        fn_call(
            "foo",
            [
                unnamed(fn_call("fizz", [])),
                named("buzz", fn_call("buzz", [named("a", expr("1")), named("b", expr("2"))])),
                unnamed(fn_call("bar", [unnamed(expr("baz")), named("qux", fn_call("qux", []))]))
            ]
        )
    );
}

#[test]
fn test_parse_function_call_truncated() {
    assert_eq!(parse_value("foo(...)").unwrap(), fn_call("foo", [unnamed(Value::Truncated)]));
    assert_eq!(
        parse_value("foo(1, 2, 3, ...)").unwrap(),
        fn_call(
            "foo",
            [unnamed(expr("1")), unnamed(expr("2")), unnamed(expr("3")), unnamed(Value::Truncated)]
        )
    );
    assert_eq!(
        parse_value("foo(param1 = 1, param2 = 2, ...)").unwrap(),
        fn_call(
            "foo",
            [named("param1", expr("1")), named("param2", expr("2")), unnamed(Value::Truncated)]
        )
    );
    assert_eq!(
        parse_value(
            "foo(fizz(...), buzz = buzz(a = 1, b = 2, ...), bar(baz, qux = qux(...), ...), ...)"
        )
        .unwrap(),
        fn_call(
            "foo",
            [
                unnamed(fn_call("fizz", [unnamed(Value::Truncated)])),
                named(
                    "buzz",
                    fn_call(
                        "buzz",
                        [
                            named("a", expr("1")),
                            named("b", expr("2")),
                            unnamed(Value::Truncated)
                        ]
                    )
                ),
                unnamed(fn_call(
                    "bar",
                    [
                        unnamed(expr("baz")),
                        named("qux", fn_call("qux", [unnamed(Value::Truncated)])),
                        unnamed(Value::Truncated)
                    ]
                )),
                unnamed(Value::Truncated)
            ]
        )
    );
}

#[test]
fn test_parse_array() {
    assert_eq!(parse_value("[]").unwrap(), array([]));
    assert_eq!(parse_value("[1]").unwrap(), array([expr("1")]));
    assert_eq!(parse_value("[1, 2]").unwrap(), array([expr("1"), expr("2")]));
    assert_eq!(
        parse_value("[1, 2, BUCKLE_MY_SHOE]").unwrap(),
        array([expr("1"), expr("2"), expr("BUCKLE_MY_SHOE")])
    );
    assert_eq!(
        parse_value("[1, 2, [a, b, c], [d e f]]").unwrap(),
        array([
            expr("1"),
            expr("2"),
            array([expr("a"), expr("b"), expr("c")]),
            array([expr("d"), expr("e"), expr("f")])
        ])
    );
}

#[test]
fn test_parse_array_truncated() {
    assert_eq!(parse_value("[...]").unwrap(), array([Value::Truncated]));
    assert_eq!(parse_value("[1]").unwrap(), array([expr("1")]));
    assert_eq!(
        parse_value("[1, 2, ...]").unwrap(),
        array([expr("1"), expr("2"), Value::Truncated])
    );
    assert_eq!(
        parse_value("[1, 2, BUCKLE_MY_SHOE]").unwrap(),
        array([expr("1"), expr("2"), expr("BUCKLE_MY_SHOE")])
    );
    assert_eq!(
        parse_value("[1, 2, [a, b, c, ...], [d e f], ...]").unwrap(),
        array([
            expr("1"),
            expr("2"),
            array([expr("a"), expr("b"), expr("c"), Value::Truncated]),
            array([expr("d"), expr("e"), expr("f")]),
            Value::Truncated
        ])
    );
}

#[test]
fn test_parse_bitset_as_array() {
    assert_eq!(parse_value("[]").unwrap(), array([]));
    assert_eq!(parse_value("[1]").unwrap(), array([expr("1")]));
    assert_eq!(parse_value("[1 2]").unwrap(), array([expr("1"), expr("2")]));
    assert_eq!(
        parse_value("[1 2 BUCKLE_MY_SHOE]").unwrap(),
        array([expr("1"), expr("2"), expr("BUCKLE_MY_SHOE")])
    );
    assert_eq!(
        parse_value("[1 2 [a b c] [d, e, f]]").unwrap(),
        array([
            expr("1"),
            expr("2"),
            array([expr("a"), expr("b"), expr("c")]),
            array([expr("d"), expr("e"), expr("f")])
        ])
    );
}

#[test]
fn test_parse_not_bitset() {
    assert_eq!(parse_value("~[]").unwrap(), not_bitset([]));
    assert_eq!(parse_value("~[1]").unwrap(), not_bitset([expr("1")]));
    assert_eq!(parse_value("~[1 2]").unwrap(), not_bitset([expr("1"), expr("2")]));
    assert_eq!(
        parse_value("~[1 2 BUCKLE_MY_SHOE]").unwrap(),
        not_bitset([expr("1"), expr("2"), expr("BUCKLE_MY_SHOE")])
    );
    assert_eq!(
        parse_value("~[1 2 3*4*5]").unwrap(),
        not_bitset([expr("1"), expr("2"), expr("3*4*5")])
    );
}

#[test]
fn test_parse_struct() {
    assert_eq!(parse_value("{}").unwrap(), struct_value([]));
    assert_eq!(parse_value("{1}").unwrap(), struct_value([unnamed(expr("1"))]));
    assert_eq!(parse_value("{ 1 }").unwrap(), struct_value([unnamed(expr("1"))]));
    assert_eq!(parse_value("{ a = 1 }").unwrap(), struct_value([named("a", expr("1"))]));
    assert_eq!(
        parse_value("{ a = 1, b = 2}").unwrap(),
        struct_value([named("a", expr("1")), named("b", expr("2"))])
    );
    assert_eq!(
        parse_value("{ a = 1, b = 2, { 3 }, {_4 = 4 }, inner = {AAAA}}").unwrap(),
        struct_value([
            named("a", expr("1")),
            named("b", expr("2")),
            unnamed(struct_value([unnamed(expr("3"))])),
            unnamed(struct_value([named("_4", expr("4"))])),
            named("inner", struct_value([unnamed(expr("AAAA"))]))
        ])
    );
}

#[test]
fn test_parse_struct_truncated() {
    assert_eq!(
        parse_value("{ifa_family=AF_UNSPEC, ...}").unwrap(),
        struct_value([named("ifa_family", expr("AF_UNSPEC")), unnamed(Value::Truncated)])
    )
}

#[test]
fn test_parse_sparse_array() {
    assert_eq!(parse_value("[ [1] = 100 ]").unwrap(), sparse_array([(expr("1"), expr("100"))]));
    assert_eq!(
        parse_value("[ [1] = 100, [ 2 ] = 200 ]").unwrap(),
        sparse_array([(expr("1"), expr("100")), (expr("2"), expr("200"))])
    );
    assert_eq!(
        parse_value("[ [FIZZ] = 100, [FIZZ|BUZZ] = [[1] = [1]] ]").unwrap(),
        sparse_array([
            (expr("FIZZ"), expr("100")),
            (expr("FIZZ|BUZZ"), sparse_array([(expr("1"), array([expr("1")]))]))
        ])
    );
    assert_eq!(
        parse_value("{c_iflag=ICRNL|IXON|IUTF8, c_oflag=NL0|CR0|TAB0|BS0|VT0|FF0|OPOST|ONLCR, c_cflag=B38400|CS8|CREAD, c_lflag=ISIG|ICANON|ECHO|ECHOE|ECHOK|IEXTEN|ECHOCTL|ECHOKE, c_line=N_TTY, c_cc=[[VINTR]=0x3, [VQUIT]=0x1c, [VERASE]=0x7f, [VKILL]=0x15, [VEOF]=0x4, [VTIME]=0, [VMIN]=0x1, [VSWTC]=0, [VSTART]=0x11, [VSTOP]=0x13, [VSUSP]=0x1a, [VEOL]=0, [VREPRINT]=0x12, [VDISCARD]=0xf, [VWERASE]=0x17, [VLNEXT]=0x16, [VEOL2]=0, [17]=0, [18]=0]}").unwrap(),
        struct_value([
            named("c_iflag", expr("ICRNL|IXON|IUTF8")),
            named("c_oflag", expr("NL0|CR0|TAB0|BS0|VT0|FF0|OPOST|ONLCR")),
            named("c_cflag", expr("B38400|CS8|CREAD")),
            named("c_lflag", expr("ISIG|ICANON|ECHO|ECHOE|ECHOK|IEXTEN|ECHOCTL|ECHOKE")),
            named("c_line", expr("N_TTY")),
            named(
                "c_cc",
                sparse_array([
                    (expr("VINTR"), expr("0x3")),
                    (expr("VQUIT"), expr("0x1c")),
                    (expr("VERASE"), expr("0x7f")),
                    (expr("VKILL"), expr("0x15")),
                    (expr("VEOF"), expr("0x4")),
                    (expr("VTIME"), expr("0")),
                    (expr("VMIN"), expr("0x1")),
                    (expr("VSWTC"), expr("0")),
                    (expr("VSTART"), expr("0x11")),
                    (expr("VSTOP"), expr("0x13")),
                    (expr("VSUSP"), expr("0x1a")),
                    (expr("VEOL"), expr("0")),
                    (expr("VREPRINT"), expr("0x12")),
                    (expr("VDISCARD"), expr("0xf")),
                    (expr("VWERASE"), expr("0x17")),
                    (expr("VLNEXT"), expr("0x16")),
                    (expr("VEOL2"), expr("0")),
                    (expr("17"), expr("0")),
                    (expr("18"), expr("0")),
                ])
            )
        ])
    );
}

#[test]
fn test_parse_annotated() {
    assert_eq!(parse_value("6</foo/bar/baz>").unwrap(), annotated(expr("6"), "/foo/bar/baz"));
    assert_eq!(parse_value("AT_FDCWD<hello>").unwrap(), annotated(expr("AT_FDCWD"), "hello"));
    assert_eq!(
        parse_value("openat(AT_FDCWD</home/user>)").unwrap(),
        fn_call("openat", [unnamed(annotated(expr("AT_FDCWD"), "/home/user"))])
    );
    assert_eq!(
        parse_value("16<NETLINK:[ROUTE:2386219]>").unwrap(),
        annotated(expr("16"), "NETLINK:[ROUTE:2386219]")
    );
    assert_eq!(
        parse_value("16<UNIX-STREAM:[167063691->167059833]>").unwrap(),
        annotated(expr("16"), "UNIX-STREAM:[167063691->167059833]")
    );
    assert_eq!(
        parse_value(
            "16<UDPv6:[[2001:db8:1000:1000:1000:100:100:1000]:41629->[2001:db8:1000::1000:1000]:0]>"
        ).unwrap(),
        annotated(
            expr("16"),
            "UDPv6:[[2001:db8:1000:1000:1000:100:100:1000]:41629->[2001:db8:1000::1000:1000]:0]"
        )
    );
    assert_eq!(
        parse_value(r#"3</var/home/kyle/Development/scratch/-\"\76\74][\"\\a.txt>"#).unwrap(),
        annotated(expr("3"), r#"/var/home/kyle/Development/scratch/-"><]["\a.txt"#)
    );
    assert_eq!(
        parse_value("6</foo/bar/baz>(deleted)").unwrap(),
        annotated_deleted(expr("6"), "/foo/bar/baz")
    );
}

#[test]
fn test_parse_commented() {
    assert_eq!(parse_value("100 /* hello! */").unwrap(), commented(expr("100"), "hello!"));
    assert_eq!(
        parse_value("{st_atime=1755889791 /* 2025-08-22T12:09:51.972352920-0700 */}").unwrap(),
        struct_value([named(
            "st_atime",
            commented(expr("1755889791"), "2025-08-22T12:09:51.972352920-0700")
        )])
    );
}

#[test]
fn test_parse_changed() {
    assert_eq!(parse_value("FOO => BAR").unwrap(), changed(expr("FOO"), expr("BAR")),);
    assert_eq!(
        parse_value("{a=foo /* abc */ => bar /* def */}").unwrap(),
        struct_value([named(
            "a",
            changed(commented(expr("foo"), "abc"), commented(expr("bar"), "def"))
        )]),
    );
}

#[test]
fn test_parse_alternative() {
    assert_eq!(parse_value("FOO or BAR").unwrap(), alternative(expr("FOO"), expr("BAR")),);
    assert_eq!(
        parse_value("FOO or BAR or BAZ").unwrap(),
        alternative(expr("FOO"), alternative(expr("BAR"), expr("BAZ"))),
    );
}
