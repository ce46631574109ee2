use nix_hapi::dag::{execution_waves, instance_from_input_path, topological_order, DagError};
use nix_hapi::json::Json;
use nix_hapi::sources::Sources;

fn json(text: &str) -> Json {
    Json::parse(text).expect("valid JSON")
}

#[test]
fn empty_root_gives_empty_waves() {
    let waves = execution_waves(&json(r#"{}"#), &Sources::new()).unwrap();
    assert!(waves.is_empty());
}

#[test]
fn single_instance_no_deps() {
    let root = json(r#"{
  "alpha": {
    "__nixhapi": {
      "provider": {
        "type": "fake"
      },
      "dependsOn": []
    }
  }
}"#);
    let waves = execution_waves(&root, &Sources::new()).unwrap();
    assert_eq!(waves, vec![vec!["alpha"]]);
}

#[test]
fn two_independent_instances_same_wave() {
    let root = json(r#"{
  "alpha": {
    "__nixhapi": {
      "provider": {
        "type": "fake"
      },
      "dependsOn": []
    }
  },
  "beta": {
    "__nixhapi": {
      "provider": {
        "type": "fake"
      },
      "dependsOn": []
    }
  }
}"#);
    let waves = execution_waves(&root, &Sources::new()).unwrap();
    assert_eq!(waves, vec![vec!["alpha", "beta"]]);
}

#[test]
fn explicit_dep_creates_two_waves() {
    let root = json(r#"{
  "a": {
    "__nixhapi": {
      "provider": {
        "type": "fake"
      },
      "dependsOn": []
    }
  },
  "b": {
    "__nixhapi": {
      "provider": {
        "type": "fake"
      },
      "dependsOn": [
        ".[\"a\"]"
      ]
    }
  }
}"#);
    let waves = execution_waves(&root, &Sources::new()).unwrap();
    assert_eq!(waves[0], vec!["a"]);
    assert_eq!(waves[1], vec!["b"]);
}

#[test]
fn diamond_dag_three_waves() {
    // a → {b, c} → d
    let root = json(r#"{
  "a": {
    "__nixhapi": {
      "provider": {
        "type": "fake"
      },
      "dependsOn": []
    }
  },
  "b": {
    "__nixhapi": {
      "provider": {
        "type": "fake"
      },
      "dependsOn": [
        ".[\"a\"]"
      ]
    }
  },
  "c": {
    "__nixhapi": {
      "provider": {
        "type": "fake"
      },
      "dependsOn": [
        ".[\"a\"]"
      ]
    }
  },
  "d": {
    "__nixhapi": {
      "provider": {
        "type": "fake"
      },
      "dependsOn": [
        ".[\"b\"]",
        ".[\"c\"]"
      ]
    }
  }
}"#);
    let waves = execution_waves(&root, &Sources::new()).unwrap();
    assert_eq!(waves[0], vec!["a"]);
    assert_eq!(waves[1], vec!["b", "c"]);
    assert_eq!(waves[2], vec!["d"]);
}

#[test]
fn deep_chain_four_waves() {
    let root = json(r#"{
  "a": {
    "__nixhapi": {
      "provider": {
        "type": "fake"
      },
      "dependsOn": []
    }
  },
  "b": {
    "__nixhapi": {
      "provider": {
        "type": "fake"
      },
      "dependsOn": [
        ".[\"a\"]"
      ]
    }
  },
  "c": {
    "__nixhapi": {
      "provider": {
        "type": "fake"
      },
      "dependsOn": [
        ".[\"b\"]"
      ]
    }
  },
  "d": {
    "__nixhapi": {
      "provider": {
        "type": "fake"
      },
      "dependsOn": [
        ".[\"c\"]"
      ]
    }
  }
}"#);
    let waves = execution_waves(&root, &Sources::new()).unwrap();
    assert_eq!(waves.len(), 4);
    assert_eq!(waves[0], vec!["a"]);
    assert_eq!(waves[1], vec!["b"]);
    assert_eq!(waves[2], vec!["c"]);
    assert_eq!(waves[3], vec!["d"]);
}

#[test]
fn cycle_returns_error() {
    let root = json(r#"{
  "a": {
    "__nixhapi": {
      "provider": {
        "type": "fake"
      },
      "dependsOn": [
        ".[\"b\"]"
      ]
    }
  },
  "b": {
    "__nixhapi": {
      "provider": {
        "type": "fake"
      },
      "dependsOn": [
        ".[\"a\"]"
      ]
    }
  }
}"#);
    assert!(matches!(execution_waves(&root, &Sources::new()), Err(DagError::Cycle)));
}

#[test]
fn wave_members_sorted_alphabetically() {
    let root = json(r#"{
  "zebra": {
    "__nixhapi": {
      "provider": {
        "type": "fake"
      },
      "dependsOn": []
    }
  },
  "alpha": {
    "__nixhapi": {
      "provider": {
        "type": "fake"
      },
      "dependsOn": []
    }
  },
  "mammoth": {
    "__nixhapi": {
      "provider": {
        "type": "fake"
      },
      "dependsOn": []
    }
  }
}"#);
    let waves = execution_waves(&root, &Sources::new()).unwrap();
    assert_eq!(waves, vec![vec!["alpha", "mammoth", "zebra"]]);
}

#[test]
fn derived_from_creates_cross_instance_edge() {
    // scheduling.memberships.alice.userId is a derivedFrom that references
    // hr-system; no explicit dependsOn anywhere.
    let root = json(r#"{
  "hr-system": {
    "__nixhapi": {
      "provider": {
        "type": "fake"
      },
      "dependsOn": []
    },
    "users": {
      "alice": {
        "id": {
          "__nixhapi": "managed",
          "value": "user-123"
        }
      }
    }
  },
  "scheduling": {
    "__nixhapi": {
      "provider": {
        "type": "fake"
      },
      "dependsOn": []
    },
    "memberships": {
      "alice-on-call": {
        "userId": {
          "__nixhapi": "derived-from",
          "inputs": {
            "uid": ".[\"hr-system\"].users.alice.id"
          },
          "expression": "mkManaged($inputs.uid)"
        }
      }
    }
  }
}"#);
    let waves = execution_waves(&root, &Sources::new()).unwrap();
    assert_eq!(waves[0], vec!["hr-system"]);
    assert_eq!(waves[1], vec!["scheduling"]);
}

#[test]
fn derived_from_nested_deep_still_creates_edge() {
    // derivedFrom buried three levels inside the scope.
    let root = json(r#"{
  "source": {
    "__nixhapi": {
      "provider": {
        "type": "fake"
      },
      "dependsOn": []
    },
    "data": {
      "value": {
        "__nixhapi": "managed",
        "value": "x"
      }
    }
  },
  "consumer": {
    "__nixhapi": {
      "provider": {
        "type": "fake"
      },
      "dependsOn": []
    },
    "level1": {
      "level2": {
        "level3": {
          "field": {
            "__nixhapi": "derived-from",
            "inputs": {
              "v": ".[\"source\"].data.value"
            },
            "expression": "mkManaged($inputs.v)"
          }
        }
      }
    }
  }
}"#);
    let waves = execution_waves(&root, &Sources::new()).unwrap();
    assert_eq!(waves[0], vec!["source"]);
    assert_eq!(waves[1], vec!["consumer"]);
}

#[test]
fn derived_from_same_instance_no_cross_edge() {
    // A field within alpha derives from another field within alpha; no wave
    // promotion should occur.
    let root = json(r#"{
  "alpha": {
    "__nixhapi": {
      "provider": {
        "type": "fake"
      },
      "dependsOn": []
    },
    "field_a": {
      "__nixhapi": "managed",
      "value": "x"
    },
    "field_b": {
      "__nixhapi": "derived-from",
      "inputs": {
        "x": ".[\"alpha\"].field_a"
      },
      "expression": "mkManaged($inputs.x)"
    }
  }
}"#);
    let waves = execution_waves(&root, &Sources::new()).unwrap();
    assert_eq!(waves, vec![vec!["alpha"]]);
}

#[test]
fn derived_from_and_depends_on_combined() {
    // C has an explicit dependsOn on B and a derivedFrom input on A.
    // B and A are independent → both in wave 0, C in wave 1.
    let root = json(r#"{
  "a": {
    "__nixhapi": {
      "provider": {
        "type": "fake"
      },
      "dependsOn": []
    },
    "out": {
      "__nixhapi": "managed",
      "value": "result"
    }
  },
  "b": {
    "__nixhapi": {
      "provider": {
        "type": "fake"
      },
      "dependsOn": []
    }
  },
  "c": {
    "__nixhapi": {
      "provider": {
        "type": "fake"
      },
      "dependsOn": [
        ".[\"b\"]"
      ]
    },
    "field": {
      "__nixhapi": "derived-from",
      "inputs": {
        "v": ".[\"a\"].out"
      },
      "expression": "mkManaged($inputs.v)"
    }
  }
}"#);
    let waves = execution_waves(&root, &Sources::new()).unwrap();
    assert_eq!(waves[0], vec!["a", "b"]);
    assert_eq!(waves[1], vec!["c"]);
}

#[test]
fn derived_from_invalid_path_format_error() {
    let root = json(r#"{
  "alpha": {
    "__nixhapi": {
      "provider": {
        "type": "fake"
      },
      "dependsOn": []
    },
    "field": {
      "__nixhapi": "derived-from",
      "inputs": {
        "x": "not-a-valid-input-path"
      },
      "expression": "."
    }
  }
}"#);
    assert!(matches!(
        execution_waves(&root, &Sources::new()),
        Err(DagError::InvalidInputPath { .. })
    ));
}

#[test]
fn derived_from_unknown_instance_error() {
    let root = json(r#"{
  "alpha": {
    "__nixhapi": {
      "provider": {
        "type": "fake"
      },
      "dependsOn": []
    },
    "field": {
      "__nixhapi": "derived-from",
      "inputs": {
        "x": ".[\"ghost\"].some.field"
      },
      "expression": "."
    }
  }
}"#);
    assert!(matches!(
        execution_waves(&root, &Sources::new()),
        Err(DagError::UnresolvedInputDependency { .. })
    ));
}

#[test]
fn cycle_via_derived_from() {
    // A depends on B via dependsOn; B has a derivedFrom input on A → cycle.
    let root = json(r#"{
  "a": {
    "__nixhapi": {
      "provider": {
        "type": "fake"
      },
      "dependsOn": [
        ".[\"b\"]"
      ]
    }
  },
  "b": {
    "__nixhapi": {
      "provider": {
        "type": "fake"
      },
      "dependsOn": []
    },
    "field": {
      "__nixhapi": "derived-from",
      "inputs": {
        "x": ".[\"a\"].something"
      },
      "expression": "."
    }
  }
}"#);
    assert!(matches!(execution_waves(&root, &Sources::new()), Err(DagError::Cycle)));
}

#[test]
fn topological_order_respects_dependencies() {
    let root = json(r#"{
  "a": {
    "__nixhapi": {
      "provider": {
        "type": "fake"
      },
      "dependsOn": []
    }
  },
  "b": {
    "__nixhapi": {
      "provider": {
        "type": "fake"
      },
      "dependsOn": [
        ".[\"a\"]"
      ]
    }
  },
  "c": {
    "__nixhapi": {
      "provider": {
        "type": "fake"
      },
      "dependsOn": [
        ".[\"b\"]"
      ]
    }
  }
}"#);
    let order = topological_order(&root, &Sources::new()).unwrap();
    let pos = |name: &str| order.iter().position(|s| s == name).unwrap();
    assert!(pos("a") < pos("b"));
    assert!(pos("b") < pos("c"));
}

#[test]
fn instance_from_input_path_extracts_name() {
    assert_eq!(
        instance_from_input_path(r#".["hr-system"]"#),
        Some("hr-system")
    );
    assert_eq!(
        instance_from_input_path(r#".["hr-system"].users.alice.id"#),
        Some("hr-system")
    );
    assert_eq!(instance_from_input_path(".alpha"), None);
    assert_eq!(instance_from_input_path("bad-path"), None);
    assert_eq!(instance_from_input_path(""), None);
}

#[test]
fn derived_from_chain_three_providers() {
    // a → b → c, all edges via derivedFrom, no dependsOn anywhere.
    // b's field references a's output; c's field references b's (still
    // DerivedFrom) field.  The DAG does not need to know that b's value is
    // itself derived — it only cares that c references something inside b's
    // scope, which creates the edge c→b.
    let root = json(r#"{
  "a": {
    "__nixhapi": {
      "provider": {
        "type": "fake"
      },
      "dependsOn": []
    },
    "output": {
      "__nixhapi": "managed",
      "value": "a-value"
    }
  },
  "b": {
    "__nixhapi": {
      "provider": {
        "type": "fake"
      },
      "dependsOn": []
    },
    "derived": {
      "__nixhapi": "derived-from",
      "inputs": {
        "v": ".[\"a\"].output"
      },
      "expression": "mkManaged($inputs.v)"
    }
  },
  "c": {
    "__nixhapi": {
      "provider": {
        "type": "fake"
      },
      "dependsOn": []
    },
    "derived": {
      "__nixhapi": "derived-from",
      "inputs": {
        "v": ".[\"b\"].derived"
      },
      "expression": "mkManaged($inputs.v)"
    }
  }
}"#);
    let waves = execution_waves(&root, &Sources::new()).unwrap();
    assert_eq!(waves.len(), 3);
    assert_eq!(waves[0], vec!["a"]);
    assert_eq!(waves[1], vec!["b"]);
    assert_eq!(waves[2], vec!["c"]);
}

#[test]
fn derived_from_diamond_four_providers() {
    // Diamond: a → {b, c} → d, all edges via derivedFrom.
    // d has a single field with two inputs — one from b and one from c —
    // which creates edges d→b and d→c.  Combined with b→a and c→a the full
    // diamond emerges from the graph.
    let root = json(r#"{
  "a": {
    "__nixhapi": {
      "provider": {
        "type": "fake"
      },
      "dependsOn": []
    },
    "output": {
      "__nixhapi": "managed",
      "value": "a-value"
    }
  },
  "b": {
    "__nixhapi": {
      "provider": {
        "type": "fake"
      },
      "dependsOn": []
    },
    "derived": {
      "__nixhapi": "derived-from",
      "inputs": {
        "v": ".[\"a\"].output"
      },
      "expression": "mkManaged($inputs.v)"
    }
  },
  "c": {
    "__nixhapi": {
      "provider": {
        "type": "fake"
      },
      "dependsOn": []
    },
    "derived": {
      "__nixhapi": "derived-from",
      "inputs": {
        "v": ".[\"a\"].output"
      },
      "expression": "mkManaged($inputs.v)"
    }
  },
  "d": {
    "__nixhapi": {
      "provider": {
        "type": "fake"
      },
      "dependsOn": []
    },
    "derived": {
      "__nixhapi": "derived-from",
      "inputs": {
        "bv": ".[\"b\"].derived",
        "cv": ".[\"c\"].derived"
      },
      "expression": "mkManaged($inputs.bv)"
    }
  }
}"#);
    let waves = execution_waves(&root, &Sources::new()).unwrap();
    assert_eq!(waves[0], vec!["a"]);
    assert_eq!(waves[1], vec!["b", "c"]);
    assert_eq!(waves[2], vec!["d"]);
}

#[test]
fn cycle_derived_from_and_depends_on_reversed() {
    let root = json(r#"{
  "a": {
    "__nixhapi": {
      "provider": {
        "type": "fake"
      },
      "dependsOn": []
    },
    "field": {
      "__nixhapi": "derived-from",
      "inputs": {
        "x": ".[\"b\"].output"
      },
      "expression": "mkManaged($inputs.x)"
    }
  },
  "b": {
    "__nixhapi": {
      "provider": {
        "type": "fake"
      },
      "dependsOn": [
        ".[\"a\"]"
      ]
    },
    "output": {
      "__nixhapi": "managed",
      "value": "b-value"
    }
  }
}"#);
    assert!(matches!(execution_waves(&root, &Sources::new()), Err(DagError::Cycle)));
}
