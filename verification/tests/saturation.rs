use nix_hapi::json::Json;
use nix_hapi::saturation::{check_derived_from_saturation, SaturationError};

fn json(text: &str) -> Json {
    Json::parse(text).expect("valid JSON")
}

#[test]
fn valid_diamond_across_waves() {
    let root = json(r#"{
  "a": {
    "__nixhapi": {
      "provider": {
        "type": "fake"
      },
      "dependsOn": []
    },
    "output": {
      "__nixhapi": "managed",
      "value": "x"
    }
  },
  "b": {
    "__nixhapi": {
      "provider": {
        "type": "fake"
      },
      "dependsOn": []
    },
    "field": {
      "__nixhapi": "derived-from",
      "inputs": {
        "v": ".[\"a\"].output"
      },
      "expression": "mkManaged(.v)"
    }
  }
}"#);
    let waves = vec![vec!["a".to_string()], vec!["b".to_string()]];
    assert!(check_derived_from_saturation(&root, &waves).is_ok());
}

#[test]
fn same_wave_reference_is_error() {
    let root = json(r#"{
  "a": {
    "__nixhapi": {
      "provider": {
        "type": "fake"
      },
      "dependsOn": []
    },
    "output": {
      "__nixhapi": "managed",
      "value": "x"
    }
  },
  "b": {
    "__nixhapi": {
      "provider": {
        "type": "fake"
      },
      "dependsOn": []
    },
    "field": {
      "__nixhapi": "derived-from",
      "inputs": {
        "v": ".[\"a\"].output"
      },
      "expression": "mkManaged(.v)"
    }
  }
}"#);
    // Artificially place both in the same wave.
    let waves = vec![vec!["a".to_string(), "b".to_string()]];
    assert!(matches!(
        check_derived_from_saturation(&root, &waves),
        Err(SaturationError::InputReferencesLaterWave { .. })
    ));
}

#[test]
fn missing_instance_reference_is_error() {
    let root = json(r#"{
  "a": {
    "__nixhapi": {
      "provider": {
        "type": "fake"
      },
      "dependsOn": []
    },
    "field": {
      "__nixhapi": "derived-from",
      "inputs": {
        "v": ".[\"ghost\"].output"
      },
      "expression": "mkManaged(.v)"
    }
  }
}"#);
    let waves = vec![vec!["a".to_string()]];
    assert!(matches!(
        check_derived_from_saturation(&root, &waves),
        Err(SaturationError::InputReferencesMissingInstance { .. })
    ));
}

#[test]
fn self_reference_is_allowed() {
    let root = json(r#"{
  "a": {
    "__nixhapi": {
      "provider": {
        "type": "fake"
      },
      "dependsOn": []
    },
    "field_a": {
      "__nixhapi": "managed",
      "value": "x"
    },
    "field_b": {
      "__nixhapi": "derived-from",
      "inputs": {
        "x": ".[\"a\"].field_a"
      },
      "expression": "mkManaged(.x)"
    }
  }
}"#);
    let waves = vec![vec!["a".to_string()]];
    assert!(check_derived_from_saturation(&root, &waves).is_ok());
}
