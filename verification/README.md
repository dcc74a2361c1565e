# Hybrid search over a shared folder

A search system for places where no HTTP server may be published: a server and its clients
exchange JSON requests and responses through a shared folder. A dataset is described by a
`schema.json` and given as flat JSONL; it is searched by words (BM25), by vectors, or by both,
whose rankings are fused.

## Layout

- `src/` is the library, verified with Verus: schemas and records, chunking, the statements of
  the record database, the text and vector indexes as far as they are plain data, ranking and
  fusion, snippets, results, the protocol of the shared folder, the decisions of the server and
  the client, and the reading of MediaWiki dumps. Its laws are the public proof functions whose
  names start with `law_`.
- `app/` is the program around it: files, SQLite, Tantivy, Lindera, the HNSW graph, ONNX Runtime,
  the local web page, command lines. Floating point stays there; the library holds a score as the
  bits of a number and orders scores by them.
- `tests/` runs the library, with in-memory databases and indexes where it makes their statements.

## Programs

```text
app build-index --dataset my_project --schema schema.json --input input.jsonl
app search-server --shared-root shared_demo --indexes-root indexes
app search-client --shared-root shared_demo --dataset my_project
app convert-mediawiki-dump --dataset books --input dump.xml.bz2 --output-dir books
```

## Shared folder

```text
requests/pending/{request_id}.request.json      written by a client
requests/processing/{request_id}.request.json   taken up by the server
requests/done, requests/failed                  dealt with
responses/{client_id}/{request_id}.response.json
```
