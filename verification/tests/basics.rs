use sugg::codegen::generate_import_stmt;
use sugg::{ICON_ERROR, ICON_PARTY, ICON_SUCCESS};

#[test]
fn lib_test_emoji_constants_render() {
    let s = format!("{}", ICON_SUCCESS);
    assert!(!s.is_empty(), "ICON_SUCCESS 应渲染出内容");
    let s = format!("{}", ICON_ERROR);
    assert!(!s.is_empty(), "ICON_ERROR 应渲染出内容");
    let s = format!("{}", ICON_PARTY);
    assert!(!s.is_empty(), "ICON_PARTY 应渲染出内容");
}

#[test]
fn test_generate_import_stmt() {
    let s = generate_import_stmt();
    assert!(s.contains("createCompletion"));
    assert!(s.contains("__parseConfig"));
    assert!(!s.contains("readJson"));
    assert!(s.contains("from 'virtual:env'"));
    assert!(!s.contains("virtual:i18n"));
}
