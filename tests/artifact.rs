use tree_serving::artifact::{ArtifactError, ModelArtifact, FORMAT_VERSION};
use tree_serving::labels::LabelMap;

fn sample() -> ModelArtifact {
    ModelArtifact {
        n_features: 4,
        labels: LabelMap::iris(),
        payload: vec![9, 8, 7],
    }
}

#[test]
fn artifact_bytes_follow_the_layout() {
    let b = sample().to_bytes();
    assert_eq!(&b[0..4], b"DTRE");
    assert_eq!(&b[4..12], &FORMAT_VERSION.to_le_bytes());
    assert_eq!(&b[12..20], &4u64.to_le_bytes());
    assert_eq!(&b[20..28], &3u64.to_le_bytes());
    assert_eq!(&b[28..36], &11u64.to_le_bytes());
    assert_eq!(&b[36..47], b"Iris-setosa");
    assert_eq!(&b[b.len() - 11..], &[3, 0, 0, 0, 0, 0, 0, 0, 9, 8, 7]);
    assert_eq!(b.len(), 28 + (8 + 11) + (8 + 15) + (8 + 14) + 8 + 3);
}

#[test]
fn artifact_round_trip() {
    let a = sample();
    let back = ModelArtifact::from_bytes(&a.to_bytes()).unwrap();
    assert_eq!(back.n_features, 4);
    assert_eq!(back.payload, vec![9, 8, 7]);
    assert_eq!(back.labels.len(), 3);
    assert_eq!(back.labels.label_of(1), Some("Iris-versicolor".to_string()));
}

#[test]
fn writing_twice_gives_identical_bytes() {
    assert_eq!(sample().to_bytes(), sample().to_bytes());
}

#[test]
fn bad_magic_and_version() {
    assert_eq!(ModelArtifact::from_bytes(b"").unwrap_err(), ArtifactError::BadMagic);
    assert_eq!(ModelArtifact::from_bytes(b"XTRE").unwrap_err(), ArtifactError::BadMagic);
    let mut b = sample().to_bytes();
    b[4] = 2;
    assert_eq!(ModelArtifact::from_bytes(&b).unwrap_err(), ArtifactError::UnsupportedVersion { found: 2 });
}

#[test]
fn truncated_and_trailing() {
    let b = sample().to_bytes();
    assert_eq!(ModelArtifact::from_bytes(&b[..b.len() - 1]).unwrap_err(), ArtifactError::Truncated);
    assert_eq!(ModelArtifact::from_bytes(&b[..30]).unwrap_err(), ArtifactError::Truncated);
    assert_eq!(ModelArtifact::from_bytes(&b[..10]).unwrap_err(), ArtifactError::Truncated);
    let mut longer = b.clone();
    longer.push(0);
    assert_eq!(ModelArtifact::from_bytes(&longer).unwrap_err(), ArtifactError::TrailingBytes);
}

#[test]
fn bad_labels() {
    let dup = ModelArtifact {
        n_features: 1,
        labels: LabelMap::from_names(vec!["a".to_string()]).unwrap(),
        payload: vec![],
    };
    let mut b = dup.to_bytes();
    b[36] = 0xff;
    assert_eq!(ModelArtifact::from_bytes(&b).unwrap_err(), ArtifactError::BadLabel);
    let mut two = Vec::new();
    two.extend_from_slice(b"DTRE");
    two.extend_from_slice(&1u64.to_le_bytes());
    two.extend_from_slice(&1u64.to_le_bytes());
    two.extend_from_slice(&2u64.to_le_bytes());
    for _ in 0..2 {
        two.extend_from_slice(&1u64.to_le_bytes());
        two.push(b'a');
    }
    two.extend_from_slice(&0u64.to_le_bytes());
    assert_eq!(ModelArtifact::from_bytes(&two).unwrap_err(), ArtifactError::BadLabel);
}
