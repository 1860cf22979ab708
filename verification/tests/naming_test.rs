use init_system::naming::{check_init_item, has_init_suffix, init_assertion_name, to_snake_case};

#[test]
fn snake_case_of_struct_names() {
    assert_eq!(to_snake_case("PlayerInit"), "player_init");
    assert_eq!(to_snake_case("ApiTestInit"), "api_test_init");
    assert_eq!(to_snake_case("MyNodeInit"), "my_node_init");
}

#[test]
fn snake_case_edge_cases() {
    assert_eq!(to_snake_case(""), "");
    assert_eq!(to_snake_case("already_snake"), "already_snake");
    assert_eq!(to_snake_case("A"), "a");
    assert_eq!(to_snake_case("HTTPServer"), "h_t_t_p_server");
    assert_eq!(to_snake_case("x1Y"), "x1_y");
}

#[test]
fn snake_case_of_non_ascii_capitals() {
    assert_eq!(to_snake_case("ÉtatInit"), "état_init");
}

#[test]
fn init_suffix_is_recognised() {
    assert!(has_init_suffix("PlayerInit"));
    assert!(has_init_suffix("Init"));
    assert!(!has_init_suffix("Player"));
    assert!(!has_init_suffix("Ini"));
    assert!(!has_init_suffix("PlayerINIT"));
    assert!(!has_init_suffix(""));
}

#[test]
fn assertion_name_for_an_init_struct() {
    assert_eq!(
        init_assertion_name("PlayerInit"),
        Ok("_assert_player_init_implements_traits".to_string())
    );
}

#[test]
fn assertion_name_refuses_other_names() {
    assert_eq!(
        init_assertion_name("Player"),
        Err("struct name 'Player' must end with 'Init' suffix".to_string())
    );
}

#[test]
fn snake_case_of_ascii_is_idempotent() {
    for name in ["PlayerInit", "HTTPServer", "already_snake", "x1Y", ""] {
        let once = to_snake_case(name);
        assert_eq!(to_snake_case(&once), once);
    }
}

#[test]
fn init_item_errors_come_in_order() {
    assert_eq!(
        check_init_item(false, false, "Player"),
        Err("init can only be used on structs".to_string())
    );
    assert_eq!(
        check_init_item(false, true, "PlayerInit"),
        Err("init can only be used on structs".to_string())
    );
    assert_eq!(check_init_item(true, false, "Player"), Err("init requires named fields".to_string()));
    assert_eq!(
        check_init_item(true, true, "Player"),
        Err("struct name 'Player' must end with 'Init' suffix".to_string())
    );
    assert_eq!(
        check_init_item(true, true, "ApiTestInit"),
        Ok("_assert_api_test_init_implements_traits".to_string())
    );
}
