use rune::context::Context;
use rune::root::Rooted;
use rune::value::Value;

#[test]
fn indexing() {
    let cx = &mut Context::new(usize::MAX);
    let slot = cx.roots.push(Rooted::Sequence(vec![]));

    assert!(cx.roots.push_to(slot, Value::nil()));
    assert_eq!(cx.bind_slice(slot)[0], Value::nil());
    let str1 = cx.add_string("str1".to_string()).unwrap();
    let str2 = cx.add_string("str2".to_string()).unwrap();
    assert!(cx.roots.push_to(slot, str1));
    assert!(cx.roots.push_to(slot, str2));
    let slice = cx.bind_slice(slot);
    assert_eq!(vec![Value::nil(), str1, str2], &slice[0..3]);
}
