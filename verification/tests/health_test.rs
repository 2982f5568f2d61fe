use recoll_next::sdk::health::{ComponentHealth, ComponentStatus, HealthReport, OverallStatus};

#[test]
fn all_ok_returns_healthy() {
    let components = vec![
        ComponentHealth {
            name: "db".to_string(),
            status: ComponentStatus::Okay,
        },
        ComponentHealth {
            name: "index".to_string(),
            status: ComponentStatus::Okay,
        },
    ];
    let report = HealthReport::from_components(components);
    assert_eq!(*report.overall(), OverallStatus::Healthy);
}

#[test]
fn any_degraded_returns_degraded() {
    let components = vec![
        ComponentHealth {
            name: "db".to_string(),
            status: ComponentStatus::Okay,
        },
        ComponentHealth {
            name: "gpu".to_string(),
            status: ComponentStatus::Degraded("slow".to_string()),
        },
    ];
    let report = HealthReport::from_components(components);
    assert_eq!(*report.overall(), OverallStatus::Degraded);
}

#[test]
fn any_down_outranks_degraded() {
    let components = vec![
        ComponentHealth {
            name: "gpu".to_string(),
            status: ComponentStatus::Degraded("slow".to_string()),
        },
        ComponentHealth {
            name: "db".to_string(),
            status: ComponentStatus::Down("gone".to_string()),
        },
    ];
    let report = HealthReport::from_components(components);
    assert_eq!(*report.overall(), OverallStatus::Unhealthy);
    assert_eq!(report.components.len(), 2);
    assert_eq!(report.components[1].name, "db");
}

#[test]
fn no_components_is_healthy() {
    let report = HealthReport::from_components(Vec::new());
    assert_eq!(*report.overall(), OverallStatus::Healthy);
}

#[test]
fn adding_an_ok_component_changes_nothing() {
    let base = vec![ComponentHealth {
        name: "gpu".to_string(),
        status: ComponentStatus::Degraded("slow".to_string()),
    }];
    let mut more = base.clone();
    more.insert(0, ComponentHealth { name: "db".to_string(), status: ComponentStatus::Okay });
    assert_eq!(
        *HealthReport::from_components(base).overall(),
        *HealthReport::from_components(more).overall()
    );
}
