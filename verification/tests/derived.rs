use nix_hapi::derived::resolve_derived_from_tree;
use nix_hapi::json::Json;

fn json(text: &str) -> Json {
    Json::parse(text).expect("valid JSON")
}

fn crystalized_with(instance: &str, state: Json) -> Json {
    Json::empty_object().with_member(instance, state)
}

/// The value at the end of a path of keys.
fn at<'a>(value: &'a Json, path: &[&str]) -> &'a Json {
    let mut here = value;
    for key in path {
        here = here.get(key).expect("member");
    }
    here
}

#[test]
fn empty_crystalized_leaves_node_unchanged() {
    let desired = json(r#"{
  "a": {
    "__nixhapi": {
      "provider": {
        "type": "fake",
        "delayMs": {
          "__nixhapi": "managed",
          "value": "0"
        }
      }
    },
    "userId": {
      "__nixhapi": "derived-from",
      "inputs": {
        "uid": ".[\"b\"].user.id"
      },
      "expression": "mkManaged(.uid)"
    }
  }
}"#);
    let result = resolve_derived_from_tree(&desired, &json(r#"{}"#)).unwrap();
    assert_eq!(*at(&result, &["a", "userId", "__nixhapi"]), json(r#""derived-from""#));
}

#[test]
fn resolved_node_replaced_with_field_value() {
    let crystalized = crystalized_with("b", json(r#"{"user": {"id": "uid-42"}}"#));
    let desired = json(r#"{
  "a": {
    "userId": {
      "__nixhapi": "derived-from",
      "inputs": {
        "uid": ".[\"b\"].user.id"
      },
      "expression": "mkManaged(.uid)"
    }
  }
}"#);
    let result = resolve_derived_from_tree(&desired, &crystalized).unwrap();
    assert_eq!(*at(&result, &["a", "userId", "__nixhapi"]), json(r#""managed""#));
    assert_eq!(*at(&result, &["a", "userId", "value"]), json(r#""uid-42""#));
}

#[test]
fn partially_missing_inputs_leaves_node_unchanged() {
    // One input resolved, one not → node stays in place.
    let crystalized = crystalized_with("b", json(r#"{"user": {"id": "uid-42"}}"#));
    let desired = json(r#"{
  "a": {
    "field": {
      "__nixhapi": "derived-from",
      "inputs": {
        "uid": ".[\"b\"].user.id",
        "sched": ".[\"c\"].schedule.id"
      },
      "expression": "mkManaged(.uid + \":\" + .sched)"
    }
  }
}"#);
    let result = resolve_derived_from_tree(&desired, &crystalized).unwrap();
    assert_eq!(*at(&result, &["a", "field", "__nixhapi"]), json(r#""derived-from""#));
}

#[test]
fn mk_helpers_produce_correct_field_value_shapes() {
    let crystalized = crystalized_with("src", json(r#"{"val": "hello"}"#));
    let desired = json(r#"{
  "dst": {
    "managed_field": {
      "__nixhapi": "derived-from",
      "inputs": {
        "v": ".[\"src\"].val"
      },
      "expression": "mkManaged(.v)"
    },
    "initial_field": {
      "__nixhapi": "derived-from",
      "inputs": {
        "v": ".[\"src\"].val"
      },
      "expression": "mkInitial(.v)"
    },
    "unmanaged_field": {
      "__nixhapi": "derived-from",
      "inputs": {
        "v": ".[\"src\"].val"
      },
      "expression": "mkUnmanaged"
    }
  }
}"#);
    let result = resolve_derived_from_tree(&desired, &crystalized).unwrap();
    assert_eq!(
        *at(&result, &["dst", "managed_field"]),
        json(r#"{"__nixhapi": "managed", "value": "hello"}"#)
    );
    assert_eq!(
        *at(&result, &["dst", "initial_field"]),
        json(r#"{"__nixhapi": "initial", "value": "hello"}"#)
    );
    assert_eq!(
        *at(&result, &["dst", "unmanaged_field"]),
        json(r#"{"__nixhapi": "unmanaged"}"#)
    );
}

#[test]
fn non_derived_from_nodes_pass_through_unchanged() {
    let desired = json(r#"{
  "a": {
    "name": {
      "__nixhapi": "managed",
      "value": "alice"
    },
    "pass": {
      "__nixhapi": "initial",
      "value": "secret"
    },
    "note": {
      "__nixhapi": "unmanaged"
    }
  }
}"#);
    let result = resolve_derived_from_tree(&desired, &json(r#"{}"#)).unwrap();
    assert_eq!(result, desired);
}

#[test]
fn nested_derived_from_inside_plain_object_resolved() {
    let crystalized = crystalized_with("src", json(r#"{"x": "42"}"#));
    let desired = json(r#"{
  "dst": {
    "group": {
      "nested": {
        "__nixhapi": "derived-from",
        "inputs": {
          "x": ".[\"src\"].x"
        },
        "expression": "mkManaged(.x)"
      }
    }
  }
}"#);
    let result = resolve_derived_from_tree(&desired, &crystalized).unwrap();
    assert_eq!(*at(&result, &["dst", "group", "nested", "__nixhapi"]), json(r#""managed""#));
    assert_eq!(*at(&result, &["dst", "group", "nested", "value"]), json(r#""42""#));
}

#[test]
fn multiple_inputs_combined_in_expression() {
    let crystalized = json(r#"{"a": {"first": "Alice"}, "b": {"last": "Smith"}}"#);
    let desired = json(r#"{
  "c": {
    "full_name": {
      "__nixhapi": "derived-from",
      "inputs": {
        "first": ".[\"a\"].first",
        "last": ".[\"b\"].last"
      },
      "expression": "mkManaged(.first + \" \" + .last)"
    }
  }
}"#);
    let result = resolve_derived_from_tree(&desired, &crystalized).unwrap();
    assert_eq!(*at(&result, &["c", "full_name", "__nixhapi"]), json(r#""managed""#));
    assert_eq!(*at(&result, &["c", "full_name", "value"]), json(r#""Alice Smith""#));
}
