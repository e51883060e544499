# ratex

Translates arXiv papers from English to Chinese: the LaTeX source of a paper is
downloaded, sent to a language model piece by piece, and compiled to PDF.

The rules of all this are a verified library under `src/`. The program around it,
under `app/`, reads arguments and files, talks to services and runs processes.

- `arxiv`, `source`: which paper is meant, and what its source comes as
- `config`, `profiles`: profiles, and what comes before what
- `latex`: comments, commands, edits to a document, chunks, bibliographies, files,
  and the course of a translation
- `translator`: what is asked, when it is asked again, and what is made of the reply
- `compiler`, `command`: calls of TeX compilers, the command line, and the course
  of a run
- `text`, `utf`, `patterns`: texts, their bytes, and the regular expressions in use
- `outside`: the calls into other crates, and what each is relied on for

Files ending in `_laws` state what holds across several functions.
