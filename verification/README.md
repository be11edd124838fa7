# parquet_cdc

Splits the columns of a Parquet file into pages, by content or by size, and decides what is written
into each page.

With content-defined chunking the boundaries of the pages follow the bytes of a column: identical
content gives identical pages in every file, so that content-addressable storage keeps it once. The
chunks come from the `fastcdc` crate. Without it, pages have a fixed size.

The code is verified with Verus. Every public function has a contract, and what holds of the library
as a whole is stated in `law_` proof functions: each row goes into exactly one page, the pages of a
column hold its leaf values in their order, splitting encoded values loses no byte and cuts through no
value, identical content is divided alike, and levels read back from their encoding.

| module       | what it is about                                                   |
|--------------|--------------------------------------------------------------------|
| `options`    | write options, statistics, sizes of chunks                         |
| `columns`    | write options of a column and of the fields below it               |
| `datatype`   | column types and their layouts; `transverse` walks to the columns  |
| `schema`     | the schema of a file                                               |
| `array`      | the values of a leaf column                                        |
| `nested`     | the levels above a leaf column, and cutting rows out of them       |
| `spans`      | runs of items and partitions                                       |
| `float`      | arithmetic in double precision, on integers                        |
| `chunker`    | chunks of bytes                                                    |
| `images`     | the bytes that stand for the values of a column                    |
| `rows`       | the rows of each page                                              |
| `cdc`        | splitting encoded values at chunk boundaries                       |
| `decimal`    | sizes of decimal numbers                                           |
| `convert`    | values as Parquet stores them                                      |
| `pages`      | what goes into a page, and which writer writes it                  |
| `plan`       | the pages of a column                                              |
| `levels`     | definition levels in run-length encoding                            |
| `encode`     | encoding a whole column before it is split                         |

`app/` holds what surrounds the library: options with `serde` and `schemars` derives, and the driver
that hands pages to the writers of a Parquet implementation.
