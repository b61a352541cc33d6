use agent_memory::metrics::{score_le, score_of, Score};
use agent_memory::rag::{Document, Error, NaiveVectorStore};

fn doc(name: &str, data: &str) -> Document {
    Document { name: name.to_string(), data: data.to_string() }
}

/// A deterministic toy embedder: counts of the letters a..z, capped so the
/// components always stay inside the index's accepted range.
fn embed(text: &str) -> Vec<i64> {
    let mut v = vec![0i64; 26];
    for c in text.chars() {
        if c.is_ascii_lowercase() {
            let i = (c as u8 - b'a') as usize;
            if v[i] < 2048 {
                v[i] += 1;
            }
        }
    }
    v
}

#[test]
fn score_of_exact_values() {
    // dot = 1*3 + 2*4 = 11; |a|^2 = 5, |b|^2 = 25.
    let a = vec![1i64, 2];
    let b = vec![3i64, 4];
    assert_eq!(score_of(&a, &b), Score { dot: 11, norm_prod: 125 });
}

#[test]
fn score_symmetry_runtime() {
    let a = vec![3i64, -1, 2];
    let b = vec![1i64, 4, 1];
    assert_eq!(score_of(&a, &b), score_of(&b, &a));
}

#[test]
fn score_ordering_matches_cosine() {
    let q = vec![1i64, 0];
    let same = score_of(&q, &vec![2i64, 0]); // cosine similarity 1
    let orth = score_of(&q, &vec![0i64, 5]); // cosine similarity 0
    let opp = score_of(&q, &vec![-3i64, 0]); // cosine similarity -1
    assert!(score_le(&same, &orth));
    assert!(score_le(&orth, &opp));
    assert!(score_le(&same, &opp));
    assert!(!score_le(&opp, &same));
}

#[test]
fn retrieve_on_empty_index_returns_empty() {
    let store = NaiveVectorStore::new();
    let r = store.retrieve(&vec![1i64, 0], 5);
    assert!(r.is_empty());
}

#[test]
fn retrieve_caps_results_at_top_k_sorted() {
    let mut store = NaiveVectorStore::new();
    assert!(store.add(doc("a", "aaaa"), embed("aaaa")).is_ok());
    assert!(store.add(doc("b", "bbbb"), embed("bbbb")).is_ok());
    assert!(store.add(doc("c", "aabb"), embed("aabb")).is_ok());
    let q = embed("aaa");
    let top2 = store.retrieve(&q, 2);
    assert_eq!(top2.len(), 2);
    assert_eq!(top2[0].0.name, "a");
    assert_eq!(top2[1].0.name, "c");
    assert!(score_le(&top2[0].1, &top2[1].1));
    // top_k beyond the corpus size returns the whole corpus
    let all = store.retrieve(&q, 10);
    assert_eq!(all.len(), 3);
    assert_eq!(all[2].0.name, "b");
    assert!(score_le(&all[0].1, &all[1].1));
    assert!(score_le(&all[1].1, &all[2].1));
    // top_k of zero returns nothing
    assert!(store.retrieve(&q, 0).is_empty());
}

#[test]
fn own_text_ranks_first() {
    let mut store = NaiveVectorStore::new();
    let texts = [("one", "the cat sat"), ("two", "dogs bark loudly"), ("three", "zebras graze")];
    for (name, text) in texts {
        assert!(store.add(doc(name, text), embed(text)).is_ok());
    }
    for (name, text) in texts {
        let r = store.retrieve(&embed(text), 1);
        assert_eq!(r.len(), 1);
        assert_eq!(r[0].0.name, name);
    }
}

#[test]
fn duplicate_name_rejected_and_first_kept() {
    let mut store = NaiveVectorStore::new();
    assert!(store.add(doc("a", "first text"), embed("first text")).is_ok());
    let second = store.add(doc("a", "second text"), embed("second text"));
    assert_eq!(second, Err(Error::DuplicateDocument));
    // the first document's content and embedding are unchanged
    assert_eq!(store.documents.len(), 1);
    assert_eq!(store.documents[0].data, "first text");
    assert_eq!(store.embeddings[0], embed("first text"));
}

#[test]
fn racing_adds_for_distinct_names_all_land() {
    // add calls are serialized in some order by the caller's lock; either
    // order succeeds for distinct names and nothing is lost
    let mut store = NaiveVectorStore::new();
    assert!(store.add(doc("left", "alpha beta"), embed("alpha beta")).is_ok());
    assert!(store.add(doc("right", "gamma delta"), embed("gamma delta")).is_ok());
    let r = store.retrieve(&embed("alpha"), 10);
    assert_eq!(r.len(), 2);
    let names: Vec<&str> = r.iter().map(|p| p.0.name.as_str()).collect();
    assert!(names.contains(&"left"));
    assert!(names.contains(&"right"));
}

#[test]
fn provider_error_value_round_trips() {
    let e = Error::EmbeddingProvider("timeout".to_string());
    assert_eq!(e, Error::EmbeddingProvider("timeout".to_string()));
    assert!(matches!(e, Error::EmbeddingProvider(_)));
    assert_ne!(e, Error::DuplicateDocument);
}
