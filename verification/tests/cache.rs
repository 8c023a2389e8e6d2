use score_engine::codec::{decode_baseline, encode_baseline, CacheError};
use score_engine::data::{
    PContributor, PContributorSkill, PInput, POutput, PPlannedProject, PProject,
};
use score_engine::score::{build_baseline, score};

fn sample_input() -> PInput {
    let contributors = vec![
        PContributor {
            name: "Anna".to_string(),
            n_skills: 2,
            skills: vec![
                PContributorSkill { name: "c++".to_string(), level: 2 },
                PContributorSkill { name: "painting".to_string(), level: 7 },
            ],
            id: 0,
        },
        PContributor {
            name: "Bob".to_string(),
            n_skills: 1,
            skills: vec![PContributorSkill { name: "html".to_string(), level: 5 }],
            id: 1,
        },
    ];
    let projects = vec![
        PProject {
            name: "Logging".to_string(),
            days_to_completion: 5,
            score: 10,
            best_before: 5,
            n_roles: 1,
            skills: vec![PContributorSkill { name: "c++".to_string(), level: 2 }],
            id: 0,
        },
        PProject {
            name: "WebServer".to_string(),
            days_to_completion: 7,
            score: 10,
            best_before: 7,
            n_roles: 2,
            skills: vec![
                PContributorSkill { name: "html".to_string(), level: 3 },
                PContributorSkill { name: "c++".to_string(), level: 2 },
            ],
            id: 1,
        },
    ];
    PInput { n_contributors: 2, n_projects: 2, contributors, projects }
}

#[test]
fn round_trip_reproduces_the_baseline() {
    let baseline = build_baseline(&sample_input());
    let bytes = encode_baseline(&baseline);
    let decoded = decode_baseline(&bytes).unwrap();
    assert_eq!(decoded, baseline);
}

#[test]
fn round_trip_with_unicode_names() {
    let input = PInput {
        n_contributors: 1,
        n_projects: 1,
        contributors: vec![PContributor {
            name: "工程師".to_string(),
            n_skills: 1,
            skills: vec![PContributorSkill { name: "ツール".to_string(), level: 3 }],
            id: 0,
        }],
        projects: vec![PProject {
            name: "προϊόν".to_string(),
            days_to_completion: 1,
            score: 2,
            best_before: 3,
            n_roles: 1,
            skills: vec![PContributorSkill { name: "ツール".to_string(), level: 1 }],
            id: 0,
        }],
    };
    let baseline = build_baseline(&input);
    let decoded = decode_baseline(&encode_baseline(&baseline)).unwrap();
    assert_eq!(decoded, baseline);
}

#[test]
fn decoded_baseline_scores_like_the_original() {
    let input = sample_input();
    let output = POutput {
        n_projects: 2,
        projects: vec![
            PPlannedProject {
                name: "WebServer".to_string(),
                roles: vec!["Bob".to_string(), "Anna".to_string()],
            },
            PPlannedProject { name: "Logging".to_string(), roles: vec!["Anna".to_string()] },
        ],
    };
    let mut fresh = build_baseline(&input);
    let mut reloaded = decode_baseline(&encode_baseline(&build_baseline(&input))).unwrap();
    assert_eq!(score(&mut fresh, &output, false), score(&mut reloaded, &output, false));
}

#[test]
fn ragged_blob_is_malformed() {
    assert_eq!(decode_baseline(&vec![1u8, 2, 3]), Err(CacheError::Malformed));
}

#[test]
fn empty_blob_is_malformed() {
    assert_eq!(decode_baseline(&Vec::new()), Err(CacheError::Malformed));
}

#[test]
fn foreign_version_is_rejected() {
    let baseline = build_baseline(&sample_input());
    let mut bytes = encode_baseline(&baseline);
    // The first little-endian word is the format version.
    bytes[0] = bytes[0].wrapping_add(1);
    assert_eq!(decode_baseline(&bytes), Err(CacheError::WrongVersion));
}

#[test]
fn truncated_blob_is_malformed() {
    let baseline = build_baseline(&sample_input());
    let mut bytes = encode_baseline(&baseline);
    for _ in 0..8 {
        bytes.pop();
    }
    assert_eq!(decode_baseline(&bytes), Err(CacheError::Malformed));
}

#[test]
fn trailing_garbage_is_malformed() {
    let baseline = build_baseline(&sample_input());
    let mut bytes = encode_baseline(&baseline);
    for _ in 0..8 {
        bytes.push(0);
    }
    assert_eq!(decode_baseline(&bytes), Err(CacheError::Malformed));
}
